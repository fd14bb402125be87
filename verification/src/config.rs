//! The desired-state tree and its parts.

use crate::strmap::{
    deep, distinct_keys, lemma_deep, lemma_deep_with_entries, lemma_deep_with_entry,
    lemma_with_entry_twice, lookup, with_entries, with_entry, StrMap,
};
use crate::strset::{with_items, StrSet};
use crate::text::clone_texts;
use crate::template::{
    compare_maps, conflict_between, context_eq, merge_maps, mergeable_maps, merged_maps, tree_map,
    MergeConflict, TemplateTree, TemplateValue,
};
use vstd::prelude::*;

verus! {

/// The priority of a manager, a hook or a file that names none.
pub const DEFAULT_PRIORITY: u8 = 50;

/// A package manager: how to add, remove and update packages with it.
#[derive(Debug)]
pub struct Manager {
    /// The command template that adds packages.
    pub add: Option<String>,
    /// The command template that removes packages.
    pub remove: Option<String>,
    /// The command template that updates packages.
    pub update: Option<String>,
    /// Whether the commands need elevated privilege.
    pub sudo: bool,
    /// The token that joins package names into one invocation; where it is
    /// empty, each package gets an invocation of its own.
    pub seperator: String,
    /// The place of the manager's changes in the order of all changes.
    pub priority: u8,
}

/// A manager as plain values.
pub struct ManagerView {
    pub add: Option<Seq<char>>,
    pub remove: Option<Seq<char>>,
    pub update: Option<Seq<char>>,
    pub sudo: bool,
    pub seperator: Seq<char>,
    pub priority: u8,
}

/// The text of an optional string.
pub open spec fn text_of(value: Option<String>) -> Option<Seq<char>> {
    match value {
        Some(s) => Some(s@),
        None => None,
    }
}

impl View for Manager {
    type V = ManagerView;

    open spec fn view(&self) -> ManagerView {
        ManagerView {
            add: text_of(self.add),
            remove: text_of(self.remove),
            update: text_of(self.update),
            sudo: self.sudo,
            seperator: self.seperator@,
            priority: self.priority,
        }
    }
}

/// Copies an optional string.
pub fn clone_text(value: &Option<String>) -> (copy: Option<String>)
    ensures
        copy == *value,
{
    match value {
        Some(s) => Some(s.clone()),
        None => None,
    }
}

impl Clone for Manager {
    fn clone(&self) -> (copy: Self)
        ensures
            copy == *self,
    {
        Manager {
            add: clone_text(&self.add),
            remove: clone_text(&self.remove),
            update: clone_text(&self.update),
            sudo: self.sudo,
            seperator: self.seperator.clone(),
            priority: self.priority,
        }
    }
}

impl Default for Manager {
    /// A manager without commands, unprivileged, without a token to join
    /// package names by, so that each package gets an invocation of its
    /// own, and with the default priority.
    fn default() -> (manager: Self)
        ensures
            manager@ == (ManagerView {
                add: None,
                remove: None,
                update: None,
                sudo: false,
                seperator: Seq::empty(),
                priority: DEFAULT_PRIORITY,
            }),
    {
        Manager {
            add: None,
            remove: None,
            update: None,
            sudo: false,
            seperator: String::new(),
            priority: DEFAULT_PRIORITY,
        }
    }
}

/// A shell command that is run at its priority.
#[derive(Debug)]
pub struct Hook {
    pub command: String,
    pub priority: u8,
}

/// A hook as plain values.
pub struct HookView {
    pub command: Seq<char>,
    pub priority: u8,
}

impl View for Hook {
    type V = HookView;

    open spec fn view(&self) -> HookView {
        HookView { command: self.command@, priority: self.priority }
    }
}

impl Clone for Hook {
    fn clone(&self) -> (copy: Self)
        ensures
            copy == *self,
    {
        Hook { command: self.command.clone(), priority: self.priority }
    }
}

impl Default for Hook {
    /// A hook with an empty command and the default priority.
    fn default() -> (hook: Self)
        ensures
            hook@ == (HookView { command: Seq::empty(), priority: DEFAULT_PRIORITY }),
    {
        Hook { command: String::new(), priority: DEFAULT_PRIORITY }
    }
}

impl From<String> for Hook {
    /// The hook that a bare string stands for: the string is its command.
    fn from(command: String) -> (hook: Self) {
        Hook { command, priority: DEFAULT_PRIORITY }
    }
}

impl vstd::std_specs::convert::FromSpecImpl<String> for Hook {
    open spec fn obeys_from_spec() -> bool {
        true
    }

    open spec fn from_spec(command: String) -> Self {
        Hook { command, priority: DEFAULT_PRIORITY }
    }
}

/// A file to place: where it comes from and how it is put in place.
#[derive(Debug)]
pub struct File {
    /// The path that the file is copied or rendered from.
    pub source: String,
    /// The place of the file's change in the order of all changes.
    pub priority: u8,
    /// A command to run once the file is in place.
    pub post_hook: Option<String>,
    /// Whether placing the file needs elevated privilege.
    pub sudo: bool,
}

/// A file as plain values.
pub struct FileView {
    pub source: Seq<char>,
    pub priority: u8,
    pub post_hook: Option<Seq<char>>,
    pub sudo: bool,
}

impl View for File {
    type V = FileView;

    open spec fn view(&self) -> FileView {
        FileView {
            source: self.source@,
            priority: self.priority,
            post_hook: text_of(self.post_hook),
            sudo: self.sudo,
        }
    }
}

impl Clone for File {
    fn clone(&self) -> (copy: Self)
        ensures
            copy == *self,
    {
        File {
            source: self.source.clone(),
            priority: self.priority,
            post_hook: clone_text(&self.post_hook),
            sudo: self.sudo,
        }
    }
}

impl Default for File {
    /// A file with an empty source, the default priority, no hook and no
    /// privilege.
    fn default() -> (file: Self)
        ensures
            file@ == (FileView {
                source: Seq::empty(),
                priority: DEFAULT_PRIORITY,
                post_hook: None,
                sudo: false,
            }),
    {
        File { source: String::new(), priority: DEFAULT_PRIORITY, post_hook: None, sudo: false }
    }
}

impl From<String> for File {
    /// The file that a bare string stands for: the string is its source.
    fn from(source: String) -> (file: Self) {
        File { source, priority: DEFAULT_PRIORITY, post_hook: None, sudo: false }
    }
}

impl vstd::std_specs::convert::FromSpecImpl<String> for File {
    open spec fn obeys_from_spec() -> bool {
        true
    }

    open spec fn from_spec(source: String) -> Self {
        File { source, priority: DEFAULT_PRIORITY, post_hook: None, sudo: false }
    }
}

/// The hooks of a tree.
#[derive(Debug)]
pub struct Hooks {
    /// Hooks that run when they are new or their command has changed.
    pub once: StrMap<Hook>,
    /// Hooks that run in every update pass.
    pub update: StrMap<Hook>,
}

/// The hooks as plain values, in insertion order.
pub struct HooksView {
    pub once: Seq<(Seq<char>, HookView)>,
    pub update: Seq<(Seq<char>, HookView)>,
}

impl View for Hooks {
    type V = HooksView;

    open spec fn view(&self) -> HooksView {
        HooksView { once: self.once@, update: self.update@ }
    }
}

impl Default for Hooks {
    /// No hooks.
    fn default() -> (hooks: Self)
        ensures
            hooks@ == (HooksView { once: Seq::empty(), update: Seq::empty() }),
    {
        let hooks = Hooks { once: StrMap::new(), update: StrMap::new() };
        assert(hooks@.once =~= Seq::empty());
        assert(hooks@.update =~= Seq::empty());
        hooks
    }
}

/// The import directives of a fragment.
#[derive(Debug)]
pub struct Module {
    /// The fragments to fold into this one, as paths relative to it.
    pub import: StrSet,
    /// Whether the fragment, with all that it imports, counts as empty.
    pub disable: bool,
}

/// The import directives as plain values.
pub struct ModuleView {
    pub import: Seq<Seq<char>>,
    pub disable: bool,
}

impl View for Module {
    type V = ModuleView;

    open spec fn view(&self) -> ModuleView {
        ModuleView { import: self.import@, disable: self.disable }
    }
}

impl Default for Module {
    /// No imports, not disabled.
    fn default() -> (module: Self)
        ensures
            module@ == (ModuleView { import: Seq::empty(), disable: false }),
    {
        Module { import: StrSet::new(), disable: false }
    }
}

/// Settings of the engine itself. There are none.
#[derive(Debug)]
pub struct DottyConfig {}

impl Default for DottyConfig {
    fn default() -> (settings: Self) {
        DottyConfig {  }
    }
}

/// The template variables of a tree, by name.
#[derive(Debug)]
pub struct TemplateContext(pub StrMap<TemplateValue>);

impl View for TemplateContext {
    type V = Map<Seq<char>, TemplateTree>;

    open spec fn view(&self) -> Map<Seq<char>, TemplateTree> {
        tree_map(self.0.entries())
    }
}

impl PartialEq for TemplateContext {
    /// Compares two contexts as the comparison of templates has it.
    fn eq(&self, other: &Self) -> (same: bool) {
        compare_maps(&self.0, &other.0, true)
    }
}

impl vstd::std_specs::cmp::PartialEqSpecImpl for TemplateContext {
    open spec fn obeys_eq_spec() -> bool {
        true
    }

    open spec fn eq_spec(&self, other: &Self) -> bool {
        context_eq(self@, other@)
    }
}

impl Default for TemplateContext {
    /// No variables.
    fn default() -> (context: Self)
        ensures
            context@ == Map::<Seq<char>, TemplateTree>::empty(),
    {
        let context = TemplateContext(StrMap::new());
        assert(context@ =~= Map::<Seq<char>, TemplateTree>::empty());
        context
    }
}

/// A desired-state tree.
#[derive(Debug)]
pub struct Config {
    /// The package managers, by name.
    pub managers: StrMap<Manager>,
    /// The packages to have installed, by manager name.
    pub packages: StrMap<StrSet>,
    /// The import directives; empty once the imports are resolved.
    pub module: Module,
    /// Settings of the engine.
    pub dotty: DottyConfig,
    /// The hooks.
    pub hooks: Hooks,
    /// The files to place, by target path.
    pub files: StrMap<File>,
    /// The template variables.
    pub template: TemplateContext,
}

/// A tree as plain values; managers, packages, hooks and files in insertion
/// order.
pub struct ConfigView {
    pub managers: Seq<(Seq<char>, ManagerView)>,
    pub packages: Seq<(Seq<char>, Seq<Seq<char>>)>,
    pub module: ModuleView,
    pub hooks: HooksView,
    pub files: Seq<(Seq<char>, FileView)>,
    pub template: Map<Seq<char>, TemplateTree>,
}

impl ConfigView {
    /// The tree without content.
    pub open spec fn empty() -> ConfigView {
        ConfigView {
            managers: Seq::empty(),
            packages: Seq::empty(),
            module: ModuleView { import: Seq::empty(), disable: false },
            hooks: HooksView { once: Seq::empty(), update: Seq::empty() },
            files: Seq::empty(),
            template: Map::empty(),
        }
    }

    /// Every name occurs once where names are keys.
    pub open spec fn wf(self) -> bool {
        &&& distinct_keys(self.managers)
        &&& distinct_keys(self.packages)
        &&& distinct_keys(self.hooks.once)
        &&& distinct_keys(self.hooks.update)
        &&& distinct_keys(self.files)
    }
}

impl View for Config {
    type V = ConfigView;

    open spec fn view(&self) -> ConfigView {
        ConfigView {
            managers: self.managers@,
            packages: self.packages@,
            module: self.module@,
            hooks: self.hooks@,
            files: self.files@,
            template: self.template@,
        }
    }
}

impl Default for Config {
    /// The tree without content.
    fn default() -> (config: Self)
        ensures
            config@ == ConfigView::empty(),
    {
        let config = Config {
            managers: StrMap::new(),
            packages: StrMap::new(),
            module: Module::default(),
            dotty: DottyConfig::default(),
            hooks: Hooks::default(),
            files: StrMap::new(),
            template: TemplateContext::default(),
        };
        assert(config@.managers =~= Seq::empty());
        assert(config@.packages =~= Seq::empty());
        assert(config@.files =~= Seq::empty());
        config
    }
}

/// The packages of `list`, or none where `list` has no entry for `manager`.
pub open spec fn packages_of(
    list: Seq<(Seq<char>, Seq<Seq<char>>)>,
    manager: Seq<char>,
) -> Seq<Seq<char>> {
    match lookup(list, manager) {
        Some(packages) => packages,
        None => Seq::empty(),
    }
}

/// `list` after the packages of `more` were added to it, manager by manager
/// in the order of `more`: a manager's packages join those that `list` holds
/// for it.
pub open spec fn with_packages(
    list: Seq<(Seq<char>, Seq<Seq<char>>)>,
    more: Seq<(Seq<char>, Seq<Seq<char>>)>,
) -> Seq<(Seq<char>, Seq<Seq<char>>)>
    decreases more.len(),
{
    if more.len() == 0 {
        list
    } else {
        let sofar = with_packages(list, more.drop_last());
        let manager = more.last().0;
        with_entry(sofar, manager, with_items(packages_of(sofar, manager), more.last().1))
    }
}

impl ConfigView {
    /// Whether `other` merges into this tree without conflict.
    pub open spec fn merges_with(self, other: ConfigView) -> bool {
        mergeable_maps(self.template, other.template)
    }

    /// The merge of `other` into this tree. Managers, hooks and files of
    /// `other` replace those of the same name; packages join those of the
    /// same manager; template variables merge by structure. The import
    /// directives stay those of this tree.
    pub open spec fn merged_with(self, other: ConfigView) -> ConfigView {
        ConfigView {
            managers: with_entries(self.managers, other.managers),
            packages: with_packages(self.packages, other.packages),
            module: self.module,
            hooks: HooksView {
                once: with_entries(self.hooks.once, other.hooks.once),
                update: with_entries(self.hooks.update, other.hooks.update),
            },
            files: with_entries(self.files, other.files),
            template: merged_maps(self.template, other.template),
        }
    }
}

/// Adds the packages of `more` to `target`, manager by manager.
pub fn merge_packages(target: &mut StrMap<StrSet>, more: StrMap<StrSet>)
    ensures
        final(target)@ == with_packages(old(target)@, more@),
{
    proof {
        use_type_invariant(&*target);
        use_type_invariant(&more);
        more.lemma_entries();
    }
    let ghost start = target@;
    let ghost rows = more@;
    let incoming = more.entries;
    let ghost raw = incoming@;
    for entry in it: incoming.into_iter()
        invariant
            it.seq() == raw,
            rows.len() == raw.len(),
            forall|i: int| 0 <= i < raw.len() ==> (#[trigger] rows[i]) == (raw[i].0@, raw[i].1@),
            target.wf(),
            target@ == with_packages(start, rows.take(it.index() as int)),
    {
        let ghost n = it.index() as int;
        let ghost before = target.entries();
        let (manager, packages) = entry;
        proof {
            assert(rows.take(n + 1).drop_last() =~= rows.take(n));
            assert(rows.take(n + 1).last() == (manager@, packages@));
            lemma_deep(before);
        }
        let empty = StrSet::new();
        let ghost placeholder = empty;
        let present = target.insert(manager.clone(), empty);
        let mut set = match present {
            Some(set) => set,
            None => StrSet::new(),
        };
        proof {
            assert(set@ == packages_of(deep(before), manager@));
        }
        set.extend(packages);
        target.insert(manager, set);
        proof {
            lemma_with_entry_twice(before, manager@, placeholder, set);
            lemma_deep_with_entry(before, manager@, set);
        }
    }
    proof {
        assert(rows.take(rows.len() as int) =~= rows);
    }
}

impl Config {
    /// Every name of the tree occurs once where names are keys.
    pub(crate) fn names_distinct(&self)
        ensures
            self@.wf(),
    {
        proof {
            use_type_invariant(&self.managers);
            use_type_invariant(&self.packages);
            use_type_invariant(&self.hooks.once);
            use_type_invariant(&self.hooks.update);
            use_type_invariant(&self.files);
            lemma_deep(self.managers.entries());
            lemma_deep(self.packages.entries());
            lemma_deep(self.hooks.once.entries());
            lemma_deep(self.hooks.update.entries());
            lemma_deep(self.files.entries());
        }
    }

    /// A tree to start from: the manager `pacman` with its commands, and two
    /// packages for it.
    pub fn example() -> (config: Self)
        ensures
            config@ == example_view(),
    {
        proof {
            reveal_strlit("neovim");
            reveal_strlit("git");
        }
        let mut config = Config::default();
        let pacman = Manager {
            add: Some(String::from_str("pacman -S #:?")),
            remove: Some(String::from_str("pacman -Rns #:?")),
            update: Some(String::from_str("pacman -Syu")),
            sudo: true,
            seperator: String::from_str(" "),
            priority: DEFAULT_PRIORITY,
        };
        config.managers.insert(String::from_str("pacman"), pacman);
        let mut packages = StrSet::new();
        packages.insert(String::from_str("neovim"));
        assert(packages@ =~= seq!["neovim"@]);
        assert("neovim"@.len() != "git"@.len());
        packages.insert(String::from_str("git"));
        assert(packages@ =~= seq!["neovim"@, "git"@]);
        config.packages.insert(String::from_str("pacman"), packages);
        proof {
            assert(config@.managers =~= example_view().managers);
            assert(config@.packages =~= example_view().packages);
            assert(config@.files =~= example_view().files);
        }
        config
    }

    /// Folds `other` into this tree. Managers, hooks and files of `other`
    /// replace those of the same name; packages join those of the same
    /// manager; template variables merge by structure. Where the template
    /// variables conflict, the tree stays as it was and the conflict is
    /// returned.
    pub fn combine(&mut self, other: Config) -> (done: Result<(), MergeConflict>)
        ensures
            old(self)@.wf(),
            other@.wf(),
            final(self)@.wf(),
            match done {
                Ok(()) => old(self)@.merges_with(other@) && final(self)@ == old(self)@.merged_with(
                    other@,
                ),
                Err(conflict) => !old(self)@.merges_with(other@) && *final(self) == *old(self)
                    && conflict.arises_from(
                    TemplateTree::Mapping(old(self)@.template),
                    TemplateTree::Mapping(other@.template),
                ),
            },
    {
        self.names_distinct();
        other.names_distinct();
        match conflict_between(&self.template.0, &other.template.0) {
            Some(conflict) => {
                return Err(conflict);
            },
            None => {},
        }
        proof {
            use_type_invariant(&self.managers);
            use_type_invariant(&self.hooks.once);
            use_type_invariant(&self.hooks.update);
            use_type_invariant(&self.files);
            lemma_deep_with_entries(self.managers.entries(), other.managers.entries());
            lemma_deep_with_entries(self.hooks.once.entries(), other.hooks.once.entries());
            lemma_deep_with_entries(self.hooks.update.entries(), other.hooks.update.entries());
            lemma_deep_with_entries(self.files.entries(), other.files.entries());
        }
        let Config { managers, packages, module: _, dotty: _, hooks, files, template } = other;
        self.managers.extend(managers);
        self.hooks.once.extend(hooks.once);
        self.hooks.update.extend(hooks.update);
        self.files.extend(files);
        merge_packages(&mut self.packages, packages);
        let mut mine = StrMap::new();
        core::mem::swap(&mut self.template.0, &mut mine);
        self.template.0 = merge_maps(mine, template.0);
        self.names_distinct();
        Ok(())
    }
}

/// The plain values of the tree that `Config::example` builds.
pub open spec fn example_view() -> ConfigView {
    ConfigView {
        managers: seq![
            (
                "pacman"@,
                ManagerView {
                    add: Some("pacman -S #:?"@),
                    remove: Some("pacman -Rns #:?"@),
                    update: Some("pacman -Syu"@),
                    sudo: true,
                    seperator: " "@,
                    priority: DEFAULT_PRIORITY,
                },
            ),
        ],
        packages: seq![("pacman"@, seq!["neovim"@, "git"@])],
        module: ModuleView { import: Seq::empty(), disable: false },
        hooks: HooksView { once: Seq::empty(), update: Seq::empty() },
        files: Seq::empty(),
        template: Map::empty(),
    }
}

/// The tree after the fragments of `fragments` were folded into `tree` one
/// by one; none where a fragment does not merge into what came before it.
pub open spec fn folded(tree: ConfigView, fragments: Seq<ConfigView>) -> Option<ConfigView>
    decreases fragments.len(),
{
    if fragments.len() == 0 {
        Some(tree)
    } else {
        match folded(tree, fragments.drop_last()) {
            Some(sofar) => if sofar.merges_with(fragments.last()) {
                Some(sofar.merged_with(fragments.last()))
            } else {
                None
            },
            None => None,
        }
    }
}

/// The tree that `tree` resolves to with the resolved fragments that it
/// imports: the empty tree where `tree` is disabled; else the fragments
/// folded into it, and no import directives left.
pub open spec fn resolved(tree: ConfigView, fragments: Seq<ConfigView>) -> Option<ConfigView> {
    if tree.module.disable {
        Some(ConfigView::empty())
    } else {
        match folded(tree, fragments) {
            Some(all) => Some(
                ConfigView { module: ModuleView { import: Seq::empty(), disable: false }, ..all },
            ),
            None => None,
        }
    }
}

/// The views of `fragments`, in their order.
pub open spec fn config_views(fragments: Seq<Config>) -> Seq<ConfigView> {
    Seq::new(fragments.len(), |i: int| fragments[i]@)
}

impl Config {
    /// The fragments that have to be loaded to resolve this tree, as paths
    /// relative to it: its imports, or none where the tree is disabled.
    pub fn imports(&self) -> (paths: Vec<String>)
        ensures
            paths.deep_view() == (if self@.module.disable {
                Seq::empty()
            } else {
                self@.module.import
            }),
    {
        if self.module.disable {
            let paths: Vec<String> = Vec::new();
            assert(paths.deep_view() =~= Seq::empty());
            paths
        } else {
            let items = self.module.import.items();
            let paths = clone_texts(items);
            assert(paths.deep_view() =~= items.deep_view());
            paths
        }
    }

    /// Resolves the imports of this tree, `fragments` being the fragments
    /// that it imports, each loaded and resolved in turn. A disabled tree
    /// becomes the empty tree, whatever the fragments. Else the fragments
    /// are folded into the tree in their order and the import directives
    /// are cleared. Where a fragment does not merge, the conflict is
    /// returned, and the tree is left as the fragments before that one made
    /// it.
    pub fn load_dependencies(&mut self, fragments: Vec<Config>) -> (done: Result<
        (),
        MergeConflict,
    >)
        ensures
            match done {
                Ok(()) => resolved(old(self)@, config_views(fragments@)) == Some(final(self)@),
                Err(conflict) => resolved(old(self)@, config_views(fragments@)) is None
                    && exists|n: int|
                    0 <= n < fragments.len() && folded(
                        old(self)@,
                        #[trigger] config_views(fragments@).take(n),
                    ) == Some(final(self)@) && conflict.arises_from(
                        TemplateTree::Mapping(final(self)@.template),
                        TemplateTree::Mapping(fragments[n]@.template),
                    ),
            },
    {
        if self.module.disable {
            *self = Config::default();
            return Ok(());
        }
        let ghost start = self@;
        let ghost views = config_views(fragments@);
        let ghost items = fragments@;
        proof {
            assert(views.take(0) =~= Seq::empty());
        }
        for fragment in it: fragments.into_iter()
            invariant
                it.seq() == items,
                items == fragments@,
                start == old(self)@,
                views == config_views(items),
                !start.module.disable,
                folded(start, views.take(it.index() as int)) == Some(self@),
        {
            let ghost n = it.index() as int;
            proof {
                assert(views.take(n + 1).drop_last() =~= views.take(n));
                assert(views.take(n + 1).last() == fragment@);
            }
            match self.combine(fragment) {
                Ok(()) => {},
                Err(conflict) => {
                    proof {
                        lemma_folded_fails(start, views, n + 1);
                        assert(folded(start, config_views(items).take(n)) == Some(self@));
                        assert(items[n] == fragment);
                    }
                    return Err(conflict);
                },
            }
        }
        proof {
            assert(views.take(views.len() as int) =~= views);
        }
        self.module = Module::default();
        Ok(())
    }
}

/// Where the fragments up to some place do not fold, all fragments do not.
pub proof fn lemma_folded_fails(tree: ConfigView, fragments: Seq<ConfigView>, n: int)
    requires
        0 <= n <= fragments.len(),
        folded(tree, fragments.take(n)) is None,
    ensures
        folded(tree, fragments) is None,
    decreases fragments.len() - n,
{
    if n < fragments.len() {
        assert(fragments.take(n + 1).drop_last() =~= fragments.take(n));
        lemma_folded_fails(tree, fragments, n + 1);
    } else {
        assert(fragments.take(n) =~= fragments);
    }
}

} // verus!
