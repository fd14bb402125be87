//! Reconciliation: the changes that bring a machine to a desired-state
//! tree.

use crate::action::{invocations, invoke};
use crate::change::{change_views, Change, ChangeView};
use crate::config::{packages_of, Config, ConfigView, FileView, HookView, ManagerView};
use crate::expand::{expand_home, expands_to};
use crate::order::{
    all_prioritised, lemma_filter_keeps_all, lemma_ordered_contains, lemma_ordered_keeps_count,
    lemma_ordered_nothing, ordered, sort_by_priority,
};
use crate::strmap::{distinct_keys, has_key, lemma_deep, lemma_lookup_at, lookup, StrMap};
use crate::strset::{
    lemma_missing_from_itself, lemma_missing_from_nothing, missing_from, StrSet,
};
use crate::template::{compare_maps, context_eq, lemma_stands_for_itself, TemplateTree};
use crate::text::{elevated, is_template, is_template_path, with_sudo};
use vstd::prelude::*;

verus! {

/// One command change for each line of `lines`, at `priority`.
pub open spec fn raw_commands(lines: Seq<Seq<char>>, priority: u8) -> Seq<ChangeView> {
    Seq::new(lines.len(), |i: int| ChangeView::RawCommand { command: lines[i], priority })
}

/// The changes that update the packages of `manager`: none where it has no
/// update command; else its command, elevated where the manager asks for
/// it, applied to `packages`.
pub open spec fn manager_update(manager: ManagerView, packages: Seq<Seq<char>>) -> Seq<ChangeView> {
    match manager.update {
        None => Seq::empty(),
        Some(command) => raw_commands(
            invocations(elevated(command, manager.sudo), packages, manager.seperator),
            manager.priority,
        ),
    }
}

/// The changes of an update pass over `tree`, as they are emitted: the
/// update commands of the managers in their order, then every update hook.
pub open spec fn update_changes(tree: ConfigView) -> Seq<ChangeView> {
    tree.managers.flat_map(
        |entry: (Seq<char>, ManagerView)|
            manager_update(entry.1, packages_of(tree.packages, entry.0)),
    ) + Seq::new(
        tree.hooks.update.len(),
        |i: int|
            ChangeView::RawCommand {
                command: tree.hooks.update[i].1.command,
                priority: tree.hooks.update[i].1.priority,
            },
    )
}

/// Appends one command change for each line of `lines`.
fn push_raw_commands(changes: &mut Vec<Change>, lines: Vec<String>, priority: u8)
    ensures
        change_views(final(changes)@) == change_views(old(changes)@) + raw_commands(
            lines.deep_view(),
            priority,
        ),
{
    let ghost before = change_views(changes@);
    let ghost texts = lines.deep_view();
    for line in it: lines.into_iter()
        invariant
            texts.len() == it.seq().len(),
            forall|j: int| 0 <= j < texts.len() ==> (#[trigger] it.seq()[j])@ == texts[j],
            change_views(changes@) == before + raw_commands(texts.take(it.index() as int), priority),
    {
        let ghost sofar = change_views(changes@);
        let ghost n = it.index() as int;
        assert(line@ == texts[n]);
        changes.push(Change::RawCommand { command: line, priority });
        assert(change_views(changes@) =~= sofar.push(
            ChangeView::RawCommand { command: texts[n], priority },
        ));
        assert(raw_commands(texts.take(n + 1), priority) =~= raw_commands(
            texts.take(n),
            priority,
        ).push(ChangeView::RawCommand { command: texts[n], priority }));
        assert(change_views(changes@) =~= before + raw_commands(
            texts.take(it.index() + 1),
            priority,
        ));
    }
    assert(texts.take(texts.len() as int) =~= texts);
}

impl Config {
    /// The packages wanted for the manager `name`.
    fn wanted<'a>(&'a self, name: &str, none: &'a StrSet) -> (packages: &'a StrSet)
        requires
            none@.len() == 0,
        ensures
            packages@ == packages_of(self@.packages, name@),
    {
        proof {
            use_type_invariant(&self.packages);
            lemma_deep(self.packages.entries());
            assert(none@ =~= Seq::empty());
        }
        match self.packages.get(name) {
            Some(packages) => packages,
            None => none,
        }
    }

    /// The changes of an update pass: for every manager with an update
    /// command, that command applied to the manager's packages, as one
    /// invocation where the manager has a separator and as one for each
    /// package where it has none, elevated where the manager asks for it;
    /// then every update hook. The changes come sorted by priority.
    pub fn update(&self) -> (changes: Vec<Change>)
        ensures
            self@.wf(),
            change_views(changes@) == ordered(update_changes(self@), self@),
    {
        self.names_distinct();
        let ghost tree = self@;
        let ghost per_manager = |entry: (Seq<char>, ManagerView)|
            manager_update(entry.1, packages_of(tree.packages, entry.0));
        let none = StrSet::new();
        let mut changes: Vec<Change> = Vec::new();
        let mut i: usize = 0;
        proof {
            assert(tree.managers.take(0) =~= Seq::empty());
            assert(change_views(changes@) =~= tree.managers.take(0).flat_map(per_manager));
        }
        while i < self.managers.len()
            invariant
                i <= self.managers.entries().len(),
                tree == self@,
                none@.len() == 0,
                per_manager == (|entry: (Seq<char>, ManagerView)|
                    manager_update(entry.1, packages_of(tree.packages, entry.0))),
                change_views(changes@) == tree.managers.take(i as int).flat_map(per_manager),
            decreases self.managers.entries().len() - i,
        {
            let name = self.managers.key_at(i);
            let manager = self.managers.value_at(i);
            proof {
                tree.managers.lemma_flat_map_take_append(per_manager, i as int);
                assert(tree.managers[i as int] == (name@, manager@));
            }
            match &manager.update {
                Some(command) => {
                    let line = with_sudo(command.as_str(), manager.sudo);
                    let packages = self.wanted(name.as_str(), &none);
                    let lines = invoke(line.as_str(), packages.items(), manager.seperator.as_str());
                    push_raw_commands(&mut changes, lines, manager.priority);
                },
                None => {
                    assert(per_manager(tree.managers[i as int]) =~= Seq::empty());
                },
            }
            i += 1;
        }
        let ghost first = change_views(changes@);
        let mut j: usize = 0;
        proof {
            assert(tree.managers.take(tree.managers.len() as int) =~= tree.managers);
        }
        while j < self.hooks.update.len()
            invariant
                j <= self.hooks.update.entries().len(),
                tree == self@,
                first == tree.managers.flat_map(per_manager),
                change_views(changes@) == first + Seq::new(
                    j as nat,
                    |k: int|
                        ChangeView::RawCommand {
                            command: tree.hooks.update[k].1.command,
                            priority: tree.hooks.update[k].1.priority,
                        },
                ),
            decreases self.hooks.update.entries().len() - j,
        {
            let hook = self.hooks.update.value_at(j);
            let ghost sofar = change_views(changes@);
            changes.push(Change::RawCommand { command: hook.command.clone(), priority: hook.priority });
            proof {
                assert(tree.hooks.update[j as int].1 == hook@);
                assert(change_views(changes@) =~= sofar.push(
                    ChangeView::RawCommand { command: hook@.command, priority: hook@.priority },
                ));
                assert(change_views(changes@) =~= first + Seq::new(
                    (j + 1) as nat,
                    |k: int|
                        ChangeView::RawCommand {
                            command: tree.hooks.update[k].1.command,
                            priority: tree.hooks.update[k].1.priority,
                        },
                ));
            }
            j += 1;
        }
        proof {
            lemma_update_prioritised(tree);
        }
        sort_by_priority(changes, self)
    }
}

/// A manager with an update command and a separator is updated by one
/// command, which names all its packages, joined by the separator.
pub proof fn lemma_update_joined(manager: ManagerView, packages: Seq<Seq<char>>)
    requires
        manager.update is Some,
        manager.seperator.len() > 0,
    ensures
        manager_update(manager, packages) == seq![
            ChangeView::RawCommand {
                command: crate::text::substituted(
                    elevated(manager.update->0, manager.sudo),
                    crate::text::joined(packages, manager.seperator),
                ),
                priority: manager.priority,
            },
        ],
{
    assert(manager_update(manager, packages) =~= seq![
        ChangeView::RawCommand {
            command: crate::text::substituted(
                elevated(manager.update->0, manager.sudo),
                crate::text::joined(packages, manager.seperator),
            ),
            priority: manager.priority,
        },
    ]);
}

/// A manager with an update command and no separator is updated by one
/// command for each of its packages, in their order.
pub proof fn lemma_update_one_by_one(manager: ManagerView, packages: Seq<Seq<char>>)
    requires
        manager.update is Some,
        manager.seperator.len() == 0,
    ensures
        manager_update(manager, packages).len() == packages.len(),
        forall|i: int|
            0 <= i < packages.len() ==> (#[trigger] manager_update(manager, packages)[i]) == (
            ChangeView::RawCommand {
                command: crate::text::substituted(
                    elevated(manager.update->0, manager.sudo),
                    packages[i],
                ),
                priority: manager.priority,
            }),
{
}

/// Every change of an update pass has a priority.
pub proof fn lemma_update_prioritised(tree: ConfigView)
    ensures
        all_prioritised(update_changes(tree), tree),
{
    let changes = update_changes(tree);
    assert forall|i: int| 0 <= i < changes.len() implies (#[trigger] changes[i]).priority(
        tree,
    ) is Some by {
        lemma_update_commands(tree);
    }
}

/// Every change of an update pass is a command.
pub proof fn lemma_update_commands(tree: ConfigView)
    ensures
        forall|i: int|
            0 <= i < update_changes(tree).len() ==> (#[trigger] update_changes(
                tree,
            )[i]) is RawCommand,
{
    let per_manager = |entry: (Seq<char>, ManagerView)|
        manager_update(entry.1, packages_of(tree.packages, entry.0));
    lemma_flat_map_all(
        tree.managers,
        per_manager,
        |change: ChangeView| change is RawCommand,
    );
}

/// Where every item of every list that `f` gives passes `pred`, so does
/// every item of the flat map.
pub proof fn lemma_flat_map_all<A, B>(
    list: Seq<A>,
    f: spec_fn(A) -> Seq<B>,
    pred: spec_fn(B) -> bool,
)
    requires
        forall|i: int, j: int|
            0 <= i < list.len() && 0 <= j < f(list[i]).len() ==> pred(#[trigger] f(list[i])[j]),
    ensures
        forall|k: int| 0 <= k < list.flat_map(f).len() ==> pred(#[trigger] list.flat_map(f)[k]),
    decreases list.len(),
{
    if list.len() > 0 {
        let front = list.drop_last();
        assert forall|i: int, j: int| 0 <= i < front.len() && 0 <= j < f(front[i]).len() implies pred(
            #[trigger] f(front[i])[j],
        ) by {
            assert(front[i] == list[i]);
        }
        lemma_flat_map_all(front, f, pred);
        front.lemma_flat_map_push(f, list.last());
        assert(front.push(list.last()) =~= list);
        let all = list.flat_map(f);
        assert forall|k: int| 0 <= k < all.len() implies pred(#[trigger] all[k]) by {
            if k < front.flat_map(f).len() {
                assert(all[k] == front.flat_map(f)[k]);
            } else {
                assert(all[k] == f(list[list.len() - 1])[k - front.flat_map(f).len()]);
            }
        }
    } else {
        assert(list.flat_map(f) =~= Seq::empty());
    }
}

/// What the file system says of one file of a tree.
#[derive(Debug)]
pub struct FileProbe {
    /// The source path, expanded and resolved as far as it could be.
    pub source: String,
    /// The target path, expanded and resolved as far as it could be.
    pub target: String,
    /// Whether something exists at the target path.
    pub target_exists: bool,
    /// Whether the source is a directory.
    pub source_is_dir: bool,
    /// When the source was last modified, where that could be read.
    pub source_modified: Option<i128>,
    /// When the target was last modified, where that could be read.
    pub target_modified: Option<i128>,
}

/// A probe as plain values.
pub struct FileProbeView {
    pub source: Seq<char>,
    pub target: Seq<char>,
    pub target_exists: bool,
    pub source_is_dir: bool,
    pub source_modified: Option<i128>,
    pub target_modified: Option<i128>,
}

impl View for FileProbe {
    type V = FileProbeView;

    open spec fn view(&self) -> FileProbeView {
        FileProbeView {
            source: self.source@,
            target: self.target@,
            target_exists: self.target_exists,
            source_is_dir: self.source_is_dir,
            source_modified: self.source_modified,
            target_modified: self.target_modified,
        }
    }
}

/// The paths of one file of a tree, with a leading `~` expanded.
#[derive(Debug)]
pub struct FilePaths {
    /// The target as the tree names it.
    pub key: String,
    /// The expanded source path.
    pub source: String,
    /// The expanded target path.
    pub target: String,
}

/// What reconciliation decides for one file.
#[derive(Clone, Copy, Debug, PartialEq, Eq, Structural)]
pub enum Verdict {
    /// The file is placed.
    Copy,
    /// The file is left as it is.
    Keep,
    /// The modification times decide, and one of them could not be read.
    Unknown,
}

/// Why reconciliation failed.
#[derive(Debug)]
pub enum ReconcileError {
    /// No probe was handed in for the file with this target.
    Unprobed { target: String },
    /// A modification time of the file with this target was needed and could
    /// not be read.
    Io { target: String },
}

/// A reconciliation error as plain values.
pub enum ReconcileErrorView {
    Unprobed { target: Seq<char> },
    Io { target: Seq<char> },
}

impl View for ReconcileError {
    type V = ReconcileErrorView;

    open spec fn view(&self) -> ReconcileErrorView {
        match self {
            ReconcileError::Unprobed { target } => ReconcileErrorView::Unprobed { target: target@ },
            ReconcileError::Io { target } => ReconcileErrorView::Io { target: target@ },
        }
    }
}

/// The package changes for one manager: a removal of the packages that are
/// present and no longer wanted, where there are any, then an addition of
/// those that are wanted and not present, where there are any.
pub open spec fn manager_changes(
    manager: Seq<char>,
    wanted: Seq<Seq<char>>,
    present: Seq<Seq<char>>,
) -> Seq<ChangeView> {
    let removed = missing_from(present, wanted);
    let added = missing_from(wanted, present);
    (if removed.len() > 0 {
        seq![ChangeView::RemovePackage { manager, packages: removed }]
    } else {
        Seq::empty()
    }) + (if added.len() > 0 {
        seq![ChangeView::AddPackage { manager, packages: added }]
    } else {
        Seq::empty()
    })
}

/// The package changes from `old` to `new`, for the managers of `new` in
/// their order.
pub open spec fn package_changes(new: ConfigView, old: ConfigView) -> Seq<ChangeView> {
    new.managers.flat_map(
        |entry: (Seq<char>, ManagerView)|
            manager_changes(
                entry.0,
                packages_of(new.packages, entry.0),
                packages_of(old.packages, entry.0),
            ),
    )
}

/// Whether a once-hook is due: `old` does not know it, or knows it with
/// another command.
pub open spec fn hook_is_due(entry: (Seq<char>, HookView), old: ConfigView) -> bool {
    match lookup(old.hooks.once, entry.0) {
        Some(known) => known.command != entry.1.command,
        None => true,
    }
}

/// The change for one once-hook: its command where the hook is due.
pub open spec fn hook_change(entry: (Seq<char>, HookView), old: ConfigView) -> Seq<ChangeView> {
    if hook_is_due(entry, old) {
        seq![ChangeView::RawCommand { command: entry.1.command, priority: entry.1.priority }]
    } else {
        Seq::empty()
    }
}

/// The hook changes from `old` to `new`, for the once-hooks of `new` in
/// their order.
pub open spec fn hook_changes(new: ConfigView, old: ConfigView) -> Seq<ChangeView> {
    new.hooks.once.flat_map(|entry: (Seq<char>, HookView)| hook_change(entry, old))
}

/// Whether the template variables changed from `old` to `new`.
pub open spec fn templates_changed(new: ConfigView, old: ConfigView) -> bool {
    !context_eq(new.template, old.template)
}

/// What is decided for a file. It is placed where it is new to the tree,
/// where nothing exists at its target, where its source is a directory, and
/// where its source is a template and the template variables changed.
/// Otherwise it is placed exactly if its source was modified after its
/// target, which is unknown where one of the two times is.
pub open spec fn verdict(is_new: bool, templates_changed: bool, probe: FileProbeView) -> Verdict {
    if is_new || !probe.target_exists || probe.source_is_dir || (is_template_path(probe.source)
        && templates_changed) {
        Verdict::Copy
    } else {
        match (probe.source_modified, probe.target_modified) {
            (Some(source), Some(target)) => if source > target {
                Verdict::Copy
            } else {
                Verdict::Keep
            },
            _ => Verdict::Unknown,
        }
    }
}

/// The change for one file of the new tree, or the error that it ends in.
pub open spec fn file_step(
    entry: (Seq<char>, FileView),
    old: ConfigView,
    changed: bool,
    probes: Seq<(Seq<char>, FileProbeView)>,
) -> Result<Seq<ChangeView>, ReconcileErrorView> {
    match lookup(probes, entry.0) {
        None => Err(ReconcileErrorView::Unprobed { target: entry.0 }),
        Some(probe) => match verdict(!has_key(old.files, entry.0), changed, probe) {
            Verdict::Copy => Ok(seq![ChangeView::CopyFile(entry.1, probe.target)]),
            Verdict::Keep => Ok(Seq::empty()),
            Verdict::Unknown => Err(ReconcileErrorView::Io { target: entry.0 }),
        },
    }
}

/// The changes for `files` in their order, or the error of the first file
/// that ends in one.
pub open spec fn file_changes(
    files: Seq<(Seq<char>, FileView)>,
    old: ConfigView,
    changed: bool,
    probes: Seq<(Seq<char>, FileProbeView)>,
) -> Result<Seq<ChangeView>, ReconcileErrorView>
    decreases files.len(),
{
    if files.len() == 0 {
        Ok(Seq::empty())
    } else {
        match file_changes(files.drop_last(), old, changed, probes) {
            Err(error) => Err(error),
            Ok(sofar) => match file_step(files.last(), old, changed, probes) {
                Err(error) => Err(error),
                Ok(step) => Ok(sofar + step),
            },
        }
    }
}

/// The result of reconciling `new` against `old`: the package changes, the
/// hook changes and the file changes, sorted by priority; or the error of
/// the first file that ends in one.
pub open spec fn diff_result(
    new: ConfigView,
    old: ConfigView,
    probes: Seq<(Seq<char>, FileProbeView)>,
) -> Result<Seq<ChangeView>, ReconcileErrorView> {
    match file_changes(new.files, old, templates_changed(new, old), probes) {
        Err(error) => Err(error),
        Ok(files) => Ok(ordered(package_changes(new, old) + hook_changes(new, old) + files, new)),
    }
}

/// Decides what is done with a file.
pub fn file_verdict(is_new: bool, templates_changed: bool, probe: &FileProbe) -> (decided: Verdict)
    ensures
        decided == verdict(is_new, templates_changed, probe@),
{
    if is_new || !probe.target_exists || probe.source_is_dir || (is_template(probe.source.as_str())
        && templates_changed) {
        Verdict::Copy
    } else {
        match (probe.source_modified, probe.target_modified) {
            (Some(source), Some(target)) => if source > target {
                Verdict::Copy
            } else {
                Verdict::Keep
            },
            _ => Verdict::Unknown,
        }
    }
}

/// Appends the changes of `more`.
fn append_changes(changes: &mut Vec<Change>, more: Vec<Change>)
    ensures
        change_views(final(changes)@) == change_views(old(changes)@) + change_views(more@),
{
    let ghost before = change_views(changes@);
    let mut more = more;
    let ghost added = change_views(more@);
    changes.append(&mut more);
    assert(change_views(changes@) =~= before + added);
}

/// Builds the package changes for one manager.
fn manager_diff(manager: &String, wanted: &StrSet, present: &StrSet) -> (changes: Vec<Change>)
    ensures
        change_views(changes@) == manager_changes(manager@, wanted@, present@),
{
    let added = wanted.difference(present);
    let removed = present.difference(wanted);
    let mut changes: Vec<Change> = Vec::new();
    if !removed.is_empty() {
        changes.push(Change::RemovePackage { manager: manager.clone(), packages: removed });
    }
    if !added.is_empty() {
        changes.push(Change::AddPackage { manager: manager.clone(), packages: added });
    }
    assert(change_views(changes@) =~= manager_changes(manager@, wanted@, present@));
    changes
}

impl Config {
    /// The source and target path of every file of the tree, in the order of
    /// the files, each with a leading `~` expanded to the home directory.
    pub fn file_paths(&self) -> (paths: Vec<FilePaths>)
        ensures
            paths.len() == self@.files.len(),
            forall|i: int|
                0 <= i < paths.len() ==> {
                    &&& (#[trigger] paths[i]).key@ == self@.files[i].0
                    &&& expands_to(self@.files[i].1.source, paths[i].source@)
                    &&& expands_to(self@.files[i].0, paths[i].target@)
                },
    {
        let mut paths: Vec<FilePaths> = Vec::new();
        let mut i: usize = 0;
        while i < self.files.len()
            invariant
                i <= self.files.entries().len(),
                paths.len() == i,
                forall|j: int|
                    0 <= j < i ==> {
                        &&& (#[trigger] paths[j]).key@ == self@.files[j].0
                        &&& expands_to(self@.files[j].1.source, paths[j].source@)
                        &&& expands_to(self@.files[j].0, paths[j].target@)
                    },
            decreases self.files.entries().len() - i,
        {
            let key = self.files.key_at(i);
            let file = self.files.value_at(i);
            let source = expand_home(file.source.as_str());
            let target = expand_home(key.as_str());
            proof {
                assert(self@.files[i as int] == (key@, file@));
            }
            paths.push(FilePaths { key: key.clone(), source, target });
            i += 1;
        }
        paths
    }

    /// The changes that bring a machine from the tree `old` to this tree,
    /// `probes` holding what the file system says of each file, by the
    /// file's target.
    ///
    /// For every manager of this tree the packages that left its set are
    /// removed and those that joined it are added. A once-hook runs where
    /// `old` does not know it or knows it with another command. A file is
    /// placed as its verdict says. The changes come sorted by priority.
    /// Reconciliation fails at the first file that has no probe, or whose
    /// verdict is unknown.
    pub fn diff(&self, old: Config, probes: &StrMap<FileProbe>) -> (done: Result<
        Vec<Change>,
        ReconcileError,
    >)
        ensures
            self@.wf(),
            old@.wf(),
            distinct_keys(probes@),
            match done {
                Ok(changes) => diff_result(self@, old@, probes@) == Ok::<
                    Seq<ChangeView>,
                    ReconcileErrorView,
                >(change_views(changes@)),
                Err(error) => diff_result(self@, old@, probes@) == Err::<
                    Seq<ChangeView>,
                    ReconcileErrorView,
                >(error@),
            },
    {
        self.names_distinct();
        old.names_distinct();
        proof {
            use_type_invariant(probes);
            lemma_deep(probes.entries());
        }
        let ghost new = self@;
        let ghost was = old@;
        let ghost per_manager = |entry: (Seq<char>, ManagerView)|
            manager_changes(
                entry.0,
                packages_of(new.packages, entry.0),
                packages_of(was.packages, entry.0),
            );
        let ghost per_hook = |entry: (Seq<char>, HookView)| hook_change(entry, was);
        let none = StrSet::new();
        let mut changes: Vec<Change> = Vec::new();
        proof {
            assert(new.managers.take(0) =~= Seq::empty());
            assert(change_views(changes@) =~= new.managers.take(0).flat_map(per_manager));
        }
        let mut i: usize = 0;
        while i < self.managers.len()
            invariant
                i <= self.managers.entries().len(),
                new == self@,
                was == old@,
                none@.len() == 0,
                per_manager == (|entry: (Seq<char>, ManagerView)|
                    manager_changes(
                        entry.0,
                        packages_of(new.packages, entry.0),
                        packages_of(was.packages, entry.0),
                    )),
                change_views(changes@) == new.managers.take(i as int).flat_map(per_manager),
            decreases self.managers.entries().len() - i,
        {
            let name = self.managers.key_at(i);
            proof {
                new.managers.lemma_flat_map_take_append(per_manager, i as int);
                assert(new.managers[i as int].0 == name@);
            }
            let wanted = self.wanted(name.as_str(), &none);
            let present = old.wanted(name.as_str(), &none);
            append_changes(&mut changes, manager_diff(name, wanted, present));
            i += 1;
        }
        let ghost packages = change_views(changes@);
        proof {
            assert(new.managers.take(new.managers.len() as int) =~= new.managers);
            assert(new.hooks.once.take(0) =~= Seq::empty());
            assert(new.hooks.once.take(0).flat_map(per_hook) =~= Seq::empty());
            use_type_invariant(&old.hooks.once);
            lemma_deep(old.hooks.once.entries());
        }
        let mut j: usize = 0;
        while j < self.hooks.once.len()
            invariant
                j <= self.hooks.once.entries().len(),
                new == self@,
                was == old@,
                old.hooks.once.wf(),
                per_hook == (|entry: (Seq<char>, HookView)| hook_change(entry, was)),
                packages == package_changes(new, was),
                change_views(changes@) == packages + new.hooks.once.take(j as int).flat_map(
                    per_hook,
                ),
            decreases self.hooks.once.entries().len() - j,
        {
            let name = self.hooks.once.key_at(j);
            let hook = self.hooks.once.value_at(j);
            let ghost sofar = change_views(changes@);
            proof {
                new.hooks.once.lemma_flat_map_take_append(per_hook, j as int);
                assert(new.hooks.once[j as int] == (name@, hook@));
                lemma_deep(old.hooks.once.entries());
            }
            let due = match old.hooks.once.get(name.as_str()) {
                Some(known) => hook.command != known.command,
                None => true,
            };
            assert(due == hook_is_due((name@, hook@), was));
            if due {
                changes.push(
                    Change::RawCommand { command: hook.command.clone(), priority: hook.priority },
                );
                assert(change_views(changes@) =~= sofar + hook_change((name@, hook@), was));
            } else {
                assert(change_views(changes@) =~= sofar + hook_change((name@, hook@), was));
            }
            j += 1;
        }
        let ghost first = change_views(changes@);
        let changed = !compare_maps(&self.template.0, &old.template.0, true);
        let mut copies: Vec<Change> = Vec::new();
        proof {
            assert(new.hooks.once.take(new.hooks.once.len() as int) =~= new.hooks.once);
            assert(new.files.take(0) =~= Seq::empty());
            assert(change_views(copies@) =~= Seq::empty());
            use_type_invariant(&old.files);
            use_type_invariant(probes);
            lemma_deep(old.files.entries());
            lemma_deep(probes.entries());
        }
        let mut k: usize = 0;
        while k < self.files.len()
            invariant
                k <= self.files.entries().len(),
                new == self@,
                was == old@,
                new.wf(),
                was.wf(),
                old.files.wf(),
                probes.wf(),
                changed == templates_changed(new, was),
                first == package_changes(new, was) + hook_changes(new, was),
                change_views(changes@) == first,
                file_changes(new.files.take(k as int), was, changed, probes@) == Ok::<
                    Seq<ChangeView>,
                    ReconcileErrorView,
                >(change_views(copies@)),
            decreases self.files.entries().len() - k,
        {
            let target = self.files.key_at(k);
            let file = self.files.value_at(k);
            let ghost sofar = change_views(copies@);
            proof {
                assert(new.files.take(k + 1).drop_last() =~= new.files.take(k as int));
                assert(new.files.take(k + 1).last() == (target@, file@));
                assert(new.files.take(new.files.len() as int) =~= new.files);
                lemma_deep(old.files.entries());
                lemma_deep(probes.entries());
            }
            match probes.get(target.as_str()) {
                None => {
                    proof {
                        lemma_file_changes_fail(new.files, k + 1, was, changed, probes@);
                    }
                    return Err(ReconcileError::Unprobed { target: target.clone() });
                },
                Some(probe) => {
                    let is_new = !old.files.contains_key(target.as_str());
                    match file_verdict(is_new, changed, probe) {
                        Verdict::Copy => {
                            copies.push(Change::CopyFile(file.clone(), probe.target.clone()));
                            assert(change_views(copies@) =~= sofar + seq![
                                ChangeView::CopyFile(file@, probe@.target),
                            ]);
                        },
                        Verdict::Keep => {
                            assert(change_views(copies@) =~= sofar + Seq::empty());
                        },
                        Verdict::Unknown => {
                            proof {
                                lemma_file_changes_fail(new.files, k + 1, was, changed, probes@);
                            }
                            return Err(ReconcileError::Io { target: target.clone() });
                        },
                    }
                },
            }
            k += 1;
        }
        proof {
            assert(new.files.take(new.files.len() as int) =~= new.files);
        }
        append_changes(&mut changes, copies);
        proof {
            use_type_invariant(&self.managers);
            lemma_deep(self.managers.entries());
            lemma_diff_prioritised(new, was, changed, probes@);
        }
        Ok(sort_by_priority(changes, self))
    }
}

/// Where the files up to some place end in an error, all files end in that
/// error.
pub proof fn lemma_file_changes_fail(
    files: Seq<(Seq<char>, FileView)>,
    n: int,
    old: ConfigView,
    changed: bool,
    probes: Seq<(Seq<char>, FileProbeView)>,
)
    requires
        0 <= n <= files.len(),
        file_changes(files.take(n), old, changed, probes) is Err,
    ensures
        file_changes(files, old, changed, probes) == file_changes(
            files.take(n),
            old,
            changed,
            probes,
        ),
    decreases files.len() - n,
{
    if n < files.len() {
        assert(files.take(n + 1).drop_last() =~= files.take(n));
        lemma_file_changes_fail(files, n + 1, old, changed, probes);
    } else {
        assert(files.take(n) =~= files);
    }
}

/// The changes for files are file changes, each for a file of the list.
pub proof fn lemma_file_changes_are_copies(
    files: Seq<(Seq<char>, FileView)>,
    old: ConfigView,
    changed: bool,
    probes: Seq<(Seq<char>, FileProbeView)>,
)
    requires
        file_changes(files, old, changed, probes) is Ok,
    ensures
        forall|i: int|
            0 <= i < file_changes(files, old, changed, probes)->Ok_0.len() ==> (
            #[trigger] file_changes(files, old, changed, probes)->Ok_0[i]) is CopyFile,
    decreases files.len(),
{
    if files.len() > 0 {
        lemma_file_changes_are_copies(files.drop_last(), old, changed, probes);
    }
}

/// Every change that reconciliation emits has a priority against the new
/// tree.
pub proof fn lemma_diff_prioritised(
    new: ConfigView,
    old: ConfigView,
    changed: bool,
    probes: Seq<(Seq<char>, FileProbeView)>,
)
    requires
        distinct_keys(new.managers),
        file_changes(new.files, old, changed, probes) is Ok,
    ensures
        all_prioritised(
            package_changes(new, old) + hook_changes(new, old) + file_changes(
                new.files,
                old,
                changed,
                probes,
            )->Ok_0,
            new,
        ),
{
    let per_manager = |entry: (Seq<char>, ManagerView)|
        manager_changes(
            entry.0,
            packages_of(new.packages, entry.0),
            packages_of(old.packages, entry.0),
        );
    let per_hook = |entry: (Seq<char>, HookView)| hook_change(entry, old);
    let has_priority = |change: ChangeView| change.priority(new) is Some;
    assert forall|i: int, j: int|
        0 <= i < new.managers.len() && 0 <= j < per_manager(new.managers[i]).len() implies has_priority(
        #[trigger] per_manager(new.managers[i])[j],
    ) by {
        lemma_lookup_at(new.managers, i);
    }
    lemma_flat_map_all(new.managers, per_manager, has_priority);
    lemma_flat_map_all(new.hooks.once, per_hook, has_priority);
    lemma_file_changes_are_copies(new.files, old, changed, probes);
    let packages = package_changes(new, old);
    let hooks = hook_changes(new, old);
    let files = file_changes(new.files, old, changed, probes)->Ok_0;
    let all = packages + hooks + files;
    assert forall|i: int| 0 <= i < all.len() implies (#[trigger] all[i]).priority(new) is Some by {
        if i < packages.len() {
            assert(all[i] == packages[i]);
            assert(has_priority(packages[i]));
        } else if i < packages.len() + hooks.len() {
            assert(all[i] == hooks[i - packages.len()]);
            assert(has_priority(hooks[i - packages.len()]));
        } else {
            assert(all[i] == files[i - packages.len() - hooks.len()]);
        }
    }
}

/// Where `f` gives nothing for every item, the flat map is empty.
pub proof fn lemma_flat_map_nothing<A, B>(list: Seq<A>, f: spec_fn(A) -> Seq<B>)
    requires
        forall|i: int| 0 <= i < list.len() ==> (#[trigger] f(list[i])).len() == 0,
    ensures
        list.flat_map(f) == Seq::<B>::empty(),
    decreases list.len(),
{
    if list.len() > 0 {
        let front = list.drop_last();
        assert forall|i: int| 0 <= i < front.len() implies (#[trigger] f(front[i])).len() == 0 by {
            assert(front[i] == list[i]);
        }
        lemma_flat_map_nothing(front, f);
        front.lemma_flat_map_push(f, list.last());
        assert(front.push(list.last()) =~= list);
        assert(f(list[list.len() - 1]).len() == 0);
        assert(list.flat_map(f) =~= Seq::empty());
    } else {
        assert(list.flat_map(f) =~= Seq::empty());
    }
}

/// What `f` gives for an item of the list is part of the flat map.
pub proof fn lemma_flat_map_contains<A, B>(list: Seq<A>, f: spec_fn(A) -> Seq<B>, i: int, item: B)
    requires
        0 <= i < list.len(),
        f(list[i]).contains(item),
    ensures
        list.flat_map(f).contains(item),
    decreases list.len(),
{
    let front = list.drop_last();
    front.lemma_flat_map_push(f, list.last());
    assert(front.push(list.last()) =~= list);
    let all = list.flat_map(f);
    let before = front.flat_map(f);
    if i == list.len() - 1 {
        let given = f(list[i]);
        let j = choose|j: int| 0 <= j < given.len() && given[j] == item;
        assert(all[before.len() + j] == item);
    } else {
        assert(front[i] == list[i]);
        lemma_flat_map_contains(front, f, i, item);
        let j = choose|j: int| 0 <= j < before.len() && before[j] == item;
        assert(all[j] == item);
    }
}

/// Whether the probes say that every file of `tree` is in place: its target
/// exists, its source is no directory, and the source was not modified after
/// the target.
pub open spec fn settled(tree: ConfigView, probes: Seq<(Seq<char>, FileProbeView)>) -> bool {
    forall|i: int|
        0 <= i < tree.files.len() ==> {
            let found = lookup(probes, (#[trigger] tree.files[i]).0);
            &&& found is Some
            &&& found->0.target_exists
            &&& !found->0.source_is_dir
            &&& found->0.source_modified is Some
            &&& found->0.target_modified is Some
            &&& found->0.source_modified->0 <= found->0.target_modified->0
        }
}

/// Whether the probe of a file asks for the file to be placed whatever the
/// trees say: nothing exists at the target, the source is a directory, or
/// the source was modified after the target.
pub open spec fn stale(probe: FileProbeView) -> bool {
    ||| !probe.target_exists
    ||| probe.source_is_dir
    ||| (probe.source_modified is Some && probe.target_modified is Some
        && probe.source_modified->0 > probe.target_modified->0)
}

/// Each change for files is the change of one file of the list.
pub proof fn lemma_file_changes_from_steps(
    files: Seq<(Seq<char>, FileView)>,
    old: ConfigView,
    changed: bool,
    probes: Seq<(Seq<char>, FileProbeView)>,
)
    requires
        file_changes(files, old, changed, probes) is Ok,
    ensures
        forall|i: int|
            0 <= i < file_changes(files, old, changed, probes)->Ok_0.len() ==> exists|j: int|
                0 <= j < files.len() && file_step(#[trigger] files[j], old, changed, probes) == Ok::<
                    Seq<ChangeView>,
                    ReconcileErrorView,
                >(seq![(#[trigger] file_changes(files, old, changed, probes)->Ok_0[i])]),
        forall|j: int| 0 <= j < files.len() ==> file_step(#[trigger] files[j], old, changed, probes) is Ok,
        forall|j: int, item: ChangeView|
            0 <= j < files.len() && (#[trigger] file_step(
                files[j],
                old,
                changed,
                probes,
            ))->Ok_0.contains(item) ==> #[trigger] file_changes(
                files,
                old,
                changed,
                probes,
            )->Ok_0.contains(item),
    decreases files.len(),
{
    if files.len() > 0 {
        let front = files.drop_last();
        lemma_file_changes_from_steps(front, old, changed, probes);
        let all = file_changes(files, old, changed, probes)->Ok_0;
        let before = file_changes(front, old, changed, probes)->Ok_0;
        let step = file_step(files.last(), old, changed, probes)->Ok_0;
        assert(all == before + step);
        assert forall|i: int| 0 <= i < all.len() implies exists|j: int|
            0 <= j < files.len() && file_step(#[trigger] files[j], old, changed, probes) == Ok::<
                Seq<ChangeView>,
                ReconcileErrorView,
            >(seq![(#[trigger] all[i])]) by {
            if i < before.len() {
                assert(all[i] == before[i]);
                let j = choose|j: int|
                    0 <= j < front.len() && file_step(#[trigger] front[j], old, changed, probes)
                        == Ok::<Seq<ChangeView>, ReconcileErrorView>(seq![before[i]]);
                assert(front[j] == files[j]);
            } else {
                assert(all[i] == step[i - before.len()]);
                assert(step =~= seq![all[i]]);
                assert(files[files.len() - 1] == files.last());
            }
        }
        assert forall|j: int| 0 <= j < files.len() implies file_step(
            #[trigger] files[j],
            old,
            changed,
            probes,
        ) is Ok by {
            if j < front.len() {
                assert(front[j] == files[j]);
            }
        }
        assert forall|j: int, item: ChangeView|
            0 <= j < files.len() && (#[trigger] file_step(
                files[j],
                old,
                changed,
                probes,
            ))->Ok_0.contains(item) implies #[trigger] all.contains(item) by {
            if j < front.len() {
                assert(front[j] == files[j]);
                assert(before.contains(item));
                let i = choose|i: int| 0 <= i < before.len() && before[i] == item;
                assert(all[i] == item);
            } else {
                let i = choose|i: int| 0 <= i < step.len() && step[i] == item;
                assert(all[before.len() + i] == item);
            }
        }
    }
}

/// Where every file has a step that succeeds, the files have changes.
pub proof fn lemma_file_changes_succeed(
    files: Seq<(Seq<char>, FileView)>,
    old: ConfigView,
    changed: bool,
    probes: Seq<(Seq<char>, FileProbeView)>,
)
    requires
        forall|j: int| 0 <= j < files.len() ==> file_step(#[trigger] files[j], old, changed, probes) is Ok,
    ensures
        file_changes(files, old, changed, probes) is Ok,
    decreases files.len(),
{
    if files.len() > 0 {
        let front = files.drop_last();
        assert forall|j: int| 0 <= j < front.len() implies file_step(
            #[trigger] front[j],
            old,
            changed,
            probes,
        ) is Ok by {
            assert(front[j] == files[j]);
        }
        lemma_file_changes_succeed(front, old, changed, probes);
        assert(files[files.len() - 1] == files.last());
    }
}

/// A tree reconciled against itself asks for no package change and no
/// hook, and finds the template variables unchanged.
pub proof fn lemma_nothing_new(tree: ConfigView)
    requires
        tree.wf(),
    ensures
        package_changes(tree, tree) == Seq::<ChangeView>::empty(),
        hook_changes(tree, tree) == Seq::<ChangeView>::empty(),
        !templates_changed(tree, tree),
{
    let per_manager = |entry: (Seq<char>, ManagerView)|
        manager_changes(
            entry.0,
            packages_of(tree.packages, entry.0),
            packages_of(tree.packages, entry.0),
        );
    assert forall|i: int| 0 <= i < tree.managers.len() implies (#[trigger] per_manager(
        tree.managers[i],
    )).len() == 0 by {
        lemma_missing_from_itself(packages_of(tree.packages, tree.managers[i].0));
    }
    lemma_flat_map_nothing(tree.managers, per_manager);
    let per_hook = |entry: (Seq<char>, HookView)| hook_change(entry, tree);
    assert forall|i: int| 0 <= i < tree.hooks.once.len() implies (#[trigger] per_hook(
        tree.hooks.once[i],
    )).len() == 0 by {
        lemma_lookup_at(tree.hooks.once, i);
    }
    lemma_flat_map_nothing(tree.hooks.once, per_hook);
    lemma_stands_for_itself(TemplateTree::Mapping(tree.template), true);
}

/// Reconciling a tree against an equal tree emits no package change and no
/// hook; every change that it emits places a file of the tree whose probe
/// is stale.
pub proof fn lemma_diff_unchanged(
    new: ConfigView,
    old: ConfigView,
    probes: Seq<(Seq<char>, FileProbeView)>,
)
    requires
        new.wf(),
        new == old,
        diff_result(new, old, probes) is Ok,
    ensures
        forall|i: int|
            0 <= i < diff_result(new, old, probes)->Ok_0.len() ==> exists|j: int|
                0 <= j < new.files.len() && lookup(probes, (#[trigger] new.files[j]).0) is Some
                    && stale(lookup(probes, new.files[j].0)->0) && (#[trigger] diff_result(
                    new,
                    old,
                    probes,
                )->Ok_0[i]) == ChangeView::CopyFile(
                    new.files[j].1,
                    lookup(probes, new.files[j].0)->0.target,
                ),
{
    lemma_nothing_new(new);
    let files = file_changes(new.files, old, false, probes)->Ok_0;
    let emitted = package_changes(new, old) + hook_changes(new, old) + files;
    assert(emitted =~= files);
    let sorted = diff_result(new, old, probes)->Ok_0;
    lemma_file_changes_from_steps(new.files, old, false, probes);
    assert forall|i: int| 0 <= i < sorted.len() implies exists|j: int|
        0 <= j < new.files.len() && lookup(probes, (#[trigger] new.files[j]).0) is Some && stale(
            lookup(probes, new.files[j].0)->0,
        ) && (#[trigger] sorted[i]) == ChangeView::CopyFile(
            new.files[j].1,
            lookup(probes, new.files[j].0)->0.target,
        ) by {
        assert(sorted.contains(sorted[i]));
        lemma_ordered_contains(emitted, new, sorted[i]);
        let at = choose|at: int| 0 <= at < files.len() && files[at] == sorted[i];
        let j = choose|j: int|
            0 <= j < new.files.len() && file_step(#[trigger] new.files[j], old, false, probes)
                == Ok::<Seq<ChangeView>, ReconcileErrorView>(seq![files[at]]);
        lemma_lookup_at(new.files, j);
        assert(seq![files[at]][0] == files[at]);
    }
}

/// Reconciling a tree against itself, once every file is in place, emits
/// nothing.
pub proof fn lemma_diff_settles(tree: ConfigView, probes: Seq<(Seq<char>, FileProbeView)>)
    requires
        tree.wf(),
        settled(tree, probes),
    ensures
        diff_result(tree, tree, probes) == Ok::<Seq<ChangeView>, ReconcileErrorView>(Seq::empty()),
{
    lemma_nothing_new(tree);
    assert forall|j: int| 0 <= j < tree.files.len() implies file_step(
        #[trigger] tree.files[j],
        tree,
        false,
        probes,
    ) == Ok::<Seq<ChangeView>, ReconcileErrorView>(Seq::empty()) by {
        lemma_lookup_at(tree.files, j);
    }
    lemma_file_changes_succeed(tree.files, tree, false, probes);
    lemma_file_changes_from_steps(tree.files, tree, false, probes);
    let files = file_changes(tree.files, tree, false, probes)->Ok_0;
    if files.len() > 0 {
        let j = choose|j: int|
            0 <= j < tree.files.len() && file_step(#[trigger] tree.files[j], tree, false, probes)
                == Ok::<Seq<ChangeView>, ReconcileErrorView>(seq![files[0]]);
        assert(seq![files[0]].len() == 1);
    }
    assert(files =~= Seq::empty());
    assert(package_changes(tree, tree) + hook_changes(tree, tree) + files =~= Seq::empty());
    lemma_ordered_nothing(tree, 256);
}

/// Reconciling a tree against the empty tree, with a probe for every file,
/// succeeds and treats everything as new: it places every file, runs every
/// once-hook, and adds all wanted packages of every manager that has some.
pub proof fn lemma_diff_from_nothing(new: ConfigView, probes: Seq<(Seq<char>, FileProbeView)>)
    requires
        new.wf(),
        forall|j: int| 0 <= j < new.files.len() ==> has_key(probes, (#[trigger] new.files[j]).0),
    ensures
        diff_result(new, ConfigView::empty(), probes) is Ok,
        forall|j: int|
            0 <= j < new.files.len() ==> diff_result(
                new,
                ConfigView::empty(),
                probes,
            )->Ok_0.contains(
                ChangeView::CopyFile(
                    (#[trigger] new.files[j]).1,
                    lookup(probes, new.files[j].0)->0.target,
                ),
            ),
        forall|j: int|
            0 <= j < new.hooks.once.len() ==> diff_result(
                new,
                ConfigView::empty(),
                probes,
            )->Ok_0.contains(
                ChangeView::RawCommand {
                    command: (#[trigger] new.hooks.once[j]).1.command,
                    priority: new.hooks.once[j].1.priority,
                },
            ),
        forall|j: int|
            0 <= j < new.managers.len() && packages_of(
                new.packages,
                (#[trigger] new.managers[j]).0,
            ).len() > 0 ==> diff_result(new, ConfigView::empty(), probes)->Ok_0.contains(
                ChangeView::AddPackage {
                    manager: new.managers[j].0,
                    packages: packages_of(new.packages, new.managers[j].0),
                },
            ),
{
    let old = ConfigView::empty();
    let changed = templates_changed(new, old);
    assert forall|j: int| 0 <= j < new.files.len() implies file_step(
        #[trigger] new.files[j],
        old,
        changed,
        probes,
    ) == Ok::<Seq<ChangeView>, ReconcileErrorView>(
        seq![ChangeView::CopyFile(new.files[j].1, lookup(probes, new.files[j].0)->0.target)],
    ) by {
        assert(has_key(probes, new.files[j].0));
        assert(!has_key(old.files, new.files[j].0));
    }
    lemma_file_changes_succeed(new.files, old, changed, probes);
    lemma_file_changes_from_steps(new.files, old, changed, probes);
    lemma_diff_prioritised(new, old, changed, probes);
    let per_manager = |entry: (Seq<char>, ManagerView)|
        manager_changes(
            entry.0,
            packages_of(new.packages, entry.0),
            packages_of(old.packages, entry.0),
        );
    let per_hook = |entry: (Seq<char>, HookView)| hook_change(entry, old);
    let packages = package_changes(new, old);
    let hooks = hook_changes(new, old);
    let files = file_changes(new.files, old, changed, probes)->Ok_0;
    let emitted = packages + hooks + files;
    let sorted = diff_result(new, old, probes)->Ok_0;
    assert forall|item: ChangeView| emitted.contains(item) implies sorted.contains(item) by {
        let i = choose|i: int| 0 <= i < emitted.len() && emitted[i] == item;
        lemma_ordered_contains(emitted, new, item);
    }
    assert forall|j: int| 0 <= j < new.files.len() implies sorted.contains(
        ChangeView::CopyFile(
            (#[trigger] new.files[j]).1,
            lookup(probes, new.files[j].0)->0.target,
        ),
    ) by {
        let item = ChangeView::CopyFile(new.files[j].1, lookup(probes, new.files[j].0)->0.target);
        assert(seq![item][0] == item);
        assert(file_step(new.files[j], old, changed, probes)->Ok_0.contains(item));
        assert(files.contains(item));
        let i = choose|i: int| 0 <= i < files.len() && files[i] == item;
        assert(emitted[packages.len() + hooks.len() + i] == item);
    }
    assert forall|j: int| 0 <= j < new.hooks.once.len() implies sorted.contains(
        ChangeView::RawCommand {
            command: (#[trigger] new.hooks.once[j]).1.command,
            priority: new.hooks.once[j].1.priority,
        },
    ) by {
        let item = ChangeView::RawCommand {
            command: new.hooks.once[j].1.command,
            priority: new.hooks.once[j].1.priority,
        };
        assert(per_hook(new.hooks.once[j])[0] == item);
        lemma_flat_map_contains(new.hooks.once, per_hook, j, item);
        let i = choose|i: int| 0 <= i < hooks.len() && hooks[i] == item;
        assert(emitted[packages.len() + i] == item);
    }
    assert forall|j: int|
        0 <= j < new.managers.len() && packages_of(
            new.packages,
            (#[trigger] new.managers[j]).0,
        ).len() > 0 implies sorted.contains(
        ChangeView::AddPackage {
            manager: new.managers[j].0,
            packages: packages_of(new.packages, new.managers[j].0),
        },
    ) by {
        let wanted = packages_of(new.packages, new.managers[j].0);
        let item = ChangeView::AddPackage { manager: new.managers[j].0, packages: wanted };
        lemma_missing_from_nothing(wanted);
        assert(packages_of(old.packages, new.managers[j].0) =~= Seq::empty());
        assert(missing_from(Seq::empty(), wanted) =~= Seq::empty());
        assert(per_manager(new.managers[j]) =~= seq![item]);
        assert(per_manager(new.managers[j])[0] == item);
        lemma_flat_map_contains(new.managers, per_manager, j, item);
        let i = choose|i: int| 0 <= i < packages.len() && packages[i] == item;
        assert(emitted[i] == item);
    }
}

/// Whether a change places a file.
pub open spec fn is_copy() -> spec_fn(ChangeView) -> bool {
    |change: ChangeView| change is CopyFile
}

/// Whether a change runs a command.
pub open spec fn is_command() -> spec_fn(ChangeView) -> bool {
    |change: ChangeView| change is RawCommand
}

/// Whether a change adds packages.
pub open spec fn is_addition() -> spec_fn(ChangeView) -> bool {
    |change: ChangeView| change is AddPackage
}

/// Whether a change removes packages.
pub open spec fn is_removal() -> spec_fn(ChangeView) -> bool {
    |change: ChangeView| change is RemovePackage
}

/// The change that places the file of `entry` at the target that its probe
/// resolved.
pub open spec fn placed(
    entry: (Seq<char>, FileView),
    probes: Seq<(Seq<char>, FileProbeView)>,
) -> ChangeView {
    ChangeView::CopyFile(entry.1, lookup(probes, entry.0)->0.target)
}

/// The change that runs the hook of `entry`.
pub open spec fn hook_run(entry: (Seq<char>, HookView)) -> ChangeView {
    ChangeView::RawCommand { command: entry.1.command, priority: entry.1.priority }
}

/// Whether packages are wanted for the manager of `entry`.
pub open spec fn has_packages(tree: ConfigView) -> spec_fn((Seq<char>, ManagerView)) -> bool {
    |entry: (Seq<char>, ManagerView)| packages_of(tree.packages, entry.0).len() > 0
}

/// The change that adds all packages wanted for the manager of `entry`.
pub open spec fn all_added(tree: ConfigView) -> spec_fn((Seq<char>, ManagerView)) -> ChangeView {
    |entry: (Seq<char>, ManagerView)|
        ChangeView::AddPackage {
            manager: entry.0,
            packages: packages_of(tree.packages, entry.0),
        }
}

/// Where `f` gives one item for the items that `keep` keeps and nothing for
/// the others, the flat map holds that item for each kept item, in order.
pub proof fn lemma_flat_map_picks<A, B>(
    list: Seq<A>,
    f: spec_fn(A) -> Seq<B>,
    keep: spec_fn(A) -> bool,
    g: spec_fn(A) -> B,
)
    requires
        forall|i: int|
            0 <= i < list.len() ==> #[trigger] f(list[i]) == (if keep(list[i]) {
                seq![g(list[i])]
            } else {
                Seq::empty()
            }),
    ensures
        list.flat_map(f) == list.filter(keep).map_values(g),
    decreases list.len(),
{
    if list.len() == 0 {
        assert(list.flat_map(f) =~= Seq::empty());
        assert(list.filter(keep) =~= Seq::empty());
        assert(list.filter(keep).map_values(g) =~= Seq::empty());
    } else {
        let front = list.drop_last();
        let last = list.last();
        assert forall|i: int| 0 <= i < front.len() implies #[trigger] f(front[i]) == (if keep(
            front[i],
        ) {
            seq![g(front[i])]
        } else {
            Seq::empty()
        }) by {
            assert(front[i] == list[i]);
        }
        lemma_flat_map_picks(front, f, keep, g);
        assert(front.push(last) =~= list);
        assert(last == list[list.len() - 1]);
        front.lemma_flat_map_push(f, last);
        front.lemma_filter_push(last, keep);
        if keep(last) {
            assert(front.filter(keep).push(last).map_values(g) =~= front.filter(keep).map_values(
                g,
            ).push(g(last)));
            assert(list.flat_map(f) =~= list.filter(keep).map_values(g));
        } else {
            assert(list.flat_map(f) =~= list.filter(keep).map_values(g));
        }
    }
}

/// Where every file has a step that places it, the changes for the files
/// are these placements, in the order of the files.
pub proof fn lemma_file_changes_place_all(
    files: Seq<(Seq<char>, FileView)>,
    old: ConfigView,
    changed: bool,
    probes: Seq<(Seq<char>, FileProbeView)>,
)
    requires
        forall|j: int|
            0 <= j < files.len() ==> file_step(#[trigger] files[j], old, changed, probes) == Ok::<
                Seq<ChangeView>,
                ReconcileErrorView,
            >(seq![placed(files[j], probes)]),
    ensures
        file_changes(files, old, changed, probes) == Ok::<Seq<ChangeView>, ReconcileErrorView>(
            files.map_values(|entry: (Seq<char>, FileView)| placed(entry, probes)),
        ),
    decreases files.len(),
{
    let place = |entry: (Seq<char>, FileView)| placed(entry, probes);
    if files.len() == 0 {
        assert(files.map_values(place) =~= Seq::empty());
    } else {
        let front = files.drop_last();
        assert forall|j: int| 0 <= j < front.len() implies file_step(
            #[trigger] front[j],
            old,
            changed,
            probes,
        ) == Ok::<Seq<ChangeView>, ReconcileErrorView>(seq![placed(front[j], probes)]) by {
            assert(front[j] == files[j]);
        }
        lemma_file_changes_place_all(front, old, changed, probes);
        assert(files[files.len() - 1] == files.last());
        assert(front.map_values(place) + seq![placed(files.last(), probes)] =~= files.map_values(
            place,
        ));
    }
}

/// What reconciling a tree against the empty tree emits, before it is
/// ordered: for every manager with wanted packages the addition of them
/// all, then every once-hook, then the placement of every file, each in the
/// order of the tree.
pub proof fn lemma_emitted_from_nothing(new: ConfigView, probes: Seq<(Seq<char>, FileProbeView)>)
    requires
        forall|j: int| 0 <= j < new.files.len() ==> has_key(probes, (#[trigger] new.files[j]).0),
    ensures
        package_changes(new, ConfigView::empty()) == new.managers.filter(
            has_packages(new),
        ).map_values(all_added(new)),
        hook_changes(new, ConfigView::empty()) == new.hooks.once.map_values(
            |entry: (Seq<char>, HookView)| hook_run(entry),
        ),
        file_changes(
            new.files,
            ConfigView::empty(),
            templates_changed(new, ConfigView::empty()),
            probes,
        ) == Ok::<Seq<ChangeView>, ReconcileErrorView>(
            new.files.map_values(|entry: (Seq<char>, FileView)| placed(entry, probes)),
        ),
{
    let old = ConfigView::empty();
    let changed = templates_changed(new, old);
    let per_manager = |entry: (Seq<char>, ManagerView)|
        manager_changes(
            entry.0,
            packages_of(new.packages, entry.0),
            packages_of(old.packages, entry.0),
        );
    assert forall|i: int| 0 <= i < new.managers.len() implies #[trigger] per_manager(
        new.managers[i],
    ) == (if has_packages(new)(new.managers[i]) {
        seq![all_added(new)(new.managers[i])]
    } else {
        Seq::empty()
    }) by {
        let wanted = packages_of(new.packages, new.managers[i].0);
        lemma_missing_from_nothing(wanted);
        assert(packages_of(old.packages, new.managers[i].0) =~= Seq::empty());
        assert(missing_from(Seq::empty(), wanted) =~= Seq::empty());
        assert(per_manager(new.managers[i]) =~= (if wanted.len() > 0 {
            seq![all_added(new)(new.managers[i])]
        } else {
            Seq::empty()
        }));
    }
    lemma_flat_map_picks(new.managers, per_manager, has_packages(new), all_added(new));
    let per_hook = |entry: (Seq<char>, HookView)| hook_change(entry, old);
    let every = |entry: (Seq<char>, HookView)| true;
    let run = |entry: (Seq<char>, HookView)| hook_run(entry);
    assert forall|i: int| 0 <= i < new.hooks.once.len() implies #[trigger] per_hook(
        new.hooks.once[i],
    ) == (if every(new.hooks.once[i]) {
        seq![run(new.hooks.once[i])]
    } else {
        Seq::empty()
    }) by {
        assert(per_hook(new.hooks.once[i]) =~= seq![run(new.hooks.once[i])]);
    }
    lemma_flat_map_picks(new.hooks.once, per_hook, every, run);
    lemma_filter_keeps_all(new.hooks.once, every);
    assert forall|j: int| 0 <= j < new.files.len() implies file_step(
        #[trigger] new.files[j],
        old,
        changed,
        probes,
    ) == Ok::<Seq<ChangeView>, ReconcileErrorView>(seq![placed(new.files[j], probes)]) by {
        assert(has_key(probes, new.files[j].0));
        assert(!has_key(old.files, new.files[j].0));
    }
    lemma_file_changes_place_all(new.files, old, changed, probes);
}

/// Where no item of a list passes a test, the test keeps nothing of it.
pub proof fn lemma_filter_keeps_none<A>(list: Seq<A>, pred: spec_fn(A) -> bool)
    requires
        forall|i: int| 0 <= i < list.len() ==> !pred(#[trigger] list[i]),
    ensures
        list.filter(pred) == Seq::<A>::empty(),
{
    assert(list.all(|item: A| !pred(item)));
    list.lemma_all_neg_filter_empty(pred);
    assert(list.filter(pred) =~= Seq::empty());
}

/// Reconciling a tree against the empty tree, with a probe for every file,
/// gives one placement for each file, one command for each once-hook, one
/// addition for each manager with wanted packages, no removal, and nothing
/// else.
pub proof fn lemma_diff_from_nothing_counts(
    new: ConfigView,
    probes: Seq<(Seq<char>, FileProbeView)>,
)
    requires
        new.wf(),
        forall|j: int| 0 <= j < new.files.len() ==> has_key(probes, (#[trigger] new.files[j]).0),
    ensures
        diff_result(new, ConfigView::empty(), probes) is Ok,
        diff_result(new, ConfigView::empty(), probes)->Ok_0.filter(is_copy()).len()
            == new.files.len(),
        diff_result(new, ConfigView::empty(), probes)->Ok_0.filter(is_command()).len()
            == new.hooks.once.len(),
        diff_result(new, ConfigView::empty(), probes)->Ok_0.filter(is_addition()).len()
            == new.managers.filter(has_packages(new)).len(),
        diff_result(new, ConfigView::empty(), probes)->Ok_0.filter(is_removal()).len() == 0,
        diff_result(new, ConfigView::empty(), probes)->Ok_0.len() == new.files.len()
            + new.hooks.once.len() + new.managers.filter(has_packages(new)).len(),
{
    let old = ConfigView::empty();
    let changed = templates_changed(new, old);
    lemma_emitted_from_nothing(new, probes);
    lemma_diff_prioritised(new, old, changed, probes);
    let packages = package_changes(new, old);
    let hooks = hook_changes(new, old);
    let files = file_changes(new.files, old, changed, probes)->Ok_0;
    let emitted = packages + hooks + files;
    let sorted = diff_result(new, old, probes)->Ok_0;
    assert(sorted == ordered(emitted, new));
    assert(packages.len() == new.managers.filter(has_packages(new)).len());
    assert(hooks.len() == new.hooks.once.len());
    assert(files.len() == new.files.len());
    assert(sorted.filter(is_copy()).len() == files.len()) by {
        lemma_ordered_keeps_count(emitted, new, is_copy());
        lemma_filter_in_parts(packages, hooks, files, is_copy());
        lemma_filter_keeps_none(packages, is_copy());
        lemma_filter_keeps_none(hooks, is_copy());
        lemma_filter_keeps_all(files, is_copy());
    }
    assert(sorted.filter(is_command()).len() == hooks.len()) by {
        lemma_ordered_keeps_count(emitted, new, is_command());
        lemma_filter_in_parts(packages, hooks, files, is_command());
        lemma_filter_keeps_none(packages, is_command());
        lemma_filter_keeps_all(hooks, is_command());
        lemma_filter_keeps_none(files, is_command());
    }
    assert(sorted.filter(is_addition()).len() == packages.len()) by {
        lemma_ordered_keeps_count(emitted, new, is_addition());
        lemma_filter_in_parts(packages, hooks, files, is_addition());
        lemma_filter_keeps_all(packages, is_addition());
        lemma_filter_keeps_none(hooks, is_addition());
        lemma_filter_keeps_none(files, is_addition());
    }
    assert(sorted.filter(is_removal()).len() == 0) by {
        lemma_ordered_keeps_count(emitted, new, is_removal());
        lemma_filter_in_parts(packages, hooks, files, is_removal());
        lemma_filter_keeps_none(packages, is_removal());
        lemma_filter_keeps_none(hooks, is_removal());
        lemma_filter_keeps_none(files, is_removal());
    }
    assert(sorted.len() == emitted.len()) by {
        crate::order::lemma_ordered_rearranges(emitted, new);
    }
}

/// What a test keeps of three lists in a row is what it keeps of each.
pub proof fn lemma_filter_in_parts<A>(
    first: Seq<A>,
    second: Seq<A>,
    third: Seq<A>,
    pred: spec_fn(A) -> bool,
)
    ensures
        (first + second + third).filter(pred).len() == first.filter(pred).len() + second.filter(
            pred,
        ).len() + third.filter(pred).len(),
{
    Seq::filter_distributes_over_add(first + second, third, pred);
    Seq::filter_distributes_over_add(first, second, pred);
}

} // verus!
