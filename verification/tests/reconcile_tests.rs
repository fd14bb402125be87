use dotty::change::Change;
use dotty::config::{Config, File, Hook, Manager};
use dotty::reconcile::{file_verdict, FileProbe, ReconcileError, Verdict};
use dotty::strmap::StrMap;
use dotty::strset::StrSet;
use dotty::template::TemplateValue;

fn packages(names: &[&str]) -> StrSet {
    let mut set = StrSet::new();
    for name in names {
        set.insert(name.to_string());
    }
    set
}

fn manager(update: Option<&str>, sudo: bool, sep: &str, priority: u8) -> Manager {
    Manager {
        add: None,
        remove: None,
        update: update.map(|s| s.to_string()),
        sudo,
        seperator: sep.to_string(),
        priority,
    }
}

fn hook(command: &str, priority: u8) -> Hook {
    Hook { command: command.to_string(), priority }
}

fn settled(source: &str, target: &str) -> FileProbe {
    FileProbe {
        source: source.to_string(),
        target: target.to_string(),
        target_exists: true,
        source_is_dir: false,
        source_modified: Some(100),
        target_modified: Some(200),
    }
}

fn no_probes() -> StrMap<FileProbe> {
    StrMap::new()
}

fn raw(change: &Change) -> (String, u8) {
    match change {
        Change::RawCommand { command, priority } => (command.clone(), *priority),
        _ => panic!("a command change was expected"),
    }
}

fn copy_of(config: &Config) -> Config {
    let mut copy = Config::default();
    for i in 0..config.managers.len() {
        copy.managers.insert(config.managers.key_at(i).clone(), config.managers.value_at(i).clone());
    }
    for i in 0..config.packages.len() {
        let mut set = StrSet::new();
        for item in config.packages.value_at(i).items() {
            set.insert(item.clone());
        }
        copy.packages.insert(config.packages.key_at(i).clone(), set);
    }
    for i in 0..config.hooks.once.len() {
        copy.hooks
            .once
            .insert(config.hooks.once.key_at(i).clone(), config.hooks.once.value_at(i).clone());
    }
    for i in 0..config.hooks.update.len() {
        copy.hooks
            .update
            .insert(config.hooks.update.key_at(i).clone(), config.hooks.update.value_at(i).clone());
    }
    for i in 0..config.files.len() {
        copy.files.insert(config.files.key_at(i).clone(), config.files.value_at(i).clone());
    }
    copy
}

#[test]
fn update_joins_the_packages_where_there_is_a_separator() {
    let mut config = Config::default();
    config.managers.insert("pacman".to_string(), manager(Some("pacman -S #:?"), false, " ", 50));
    config.packages.insert("pacman".to_string(), packages(&["git", "neovim"]));
    let changes = config.update();
    assert_eq!(changes.len(), 1);
    let (command, priority) = raw(&changes[0]);
    assert_eq!(priority, 50);
    let args = command.strip_prefix("pacman -S ").expect("the template is kept");
    let mut names: Vec<&str> = args.split(' ').collect();
    names.sort();
    assert_eq!(names, vec!["git", "neovim"]);
    assert_eq!(command, "pacman -S git neovim");
}

#[test]
fn update_runs_once_per_package_where_there_is_no_separator() {
    let mut config = Config::default();
    config.managers.insert("cargo".to_string(), manager(Some("cargo install #:?"), false, "", 50));
    config.packages.insert("cargo".to_string(), packages(&["git", "neovim"]));
    let changes = config.update();
    assert_eq!(changes.len(), 2);
    let mut commands: Vec<String> = changes.iter().map(|c| raw(c).0).collect();
    commands.sort();
    assert_eq!(
        commands,
        vec!["cargo install git".to_string(), "cargo install neovim".to_string()]
    );
}

#[test]
fn update_of_a_manager_without_a_configured_token() {
    let mut config = Config::default();
    config.managers.insert(
        "cargo".to_string(),
        Manager { update: Some("cargo install #:?".to_string()), ..Manager::default() },
    );
    config.packages.insert("cargo".to_string(), packages(&["bat", "fd"]));
    let changes = config.update();
    let seen: Vec<(String, u8)> = changes.iter().map(raw).collect();
    assert_eq!(
        seen,
        vec![("cargo install bat".to_string(), 50), ("cargo install fd".to_string(), 50)]
    );
}

#[test]
fn update_elevates_where_the_manager_asks_for_it() {
    let config = Config::example();
    let changes = config.update();
    assert_eq!(changes.len(), 1);
    assert_eq!(raw(&changes[0]), ("sudo pacman -Syu".to_string(), 50));
}

#[test]
fn update_skips_managers_without_an_update_command() {
    let mut config = Config::default();
    config.managers.insert("pip".to_string(), manager(None, true, " ", 1));
    config.packages.insert("pip".to_string(), packages(&["black"]));
    assert!(config.update().is_empty());
}

#[test]
fn update_of_a_manager_without_packages() {
    let mut config = Config::default();
    config.managers.insert("apt".to_string(), manager(Some("apt upgrade #:?"), true, " ", 1));
    config.managers.insert("gem".to_string(), manager(Some("gem update #:?"), false, "", 2));
    let changes = config.update();
    assert_eq!(changes.len(), 1);
    assert_eq!(raw(&changes[0]), ("sudo apt upgrade ".to_string(), 1));
}

#[test]
fn update_runs_every_update_hook_sorted_by_priority() {
    let mut config = Config::default();
    config.managers.insert("apt".to_string(), manager(Some("apt upgrade"), false, " ", 50));
    config.managers.insert("pip".to_string(), manager(Some("pip up"), false, " ", 10));
    config.hooks.update.insert("late".to_string(), hook("echo late", 90));
    config.hooks.update.insert("early".to_string(), hook("echo early", 10));
    config.hooks.update.insert("mid".to_string(), hook("echo mid", 50));
    config.hooks.once.insert("never".to_string(), hook("echo once", 0));
    let changes = config.update();
    let seen: Vec<(String, u8)> = changes.iter().map(raw).collect();
    assert_eq!(
        seen,
        vec![
            ("pip up".to_string(), 10),
            ("echo early".to_string(), 10),
            ("apt upgrade".to_string(), 50),
            ("echo mid".to_string(), 50),
            ("echo late".to_string(), 90),
        ]
    );
}

#[test]
fn diff_removes_before_it_adds() {
    let pacman = || Manager { priority: 33, ..Manager::default() };
    let mut old = Config::default();
    old.managers.insert("pacman".to_string(), pacman());
    old.packages.insert("pacman".to_string(), packages(&["vim"]));
    let mut new = Config::default();
    new.managers.insert("pacman".to_string(), pacman());
    new.packages.insert("pacman".to_string(), packages(&["neovim"]));
    let changes = new.diff(old, &no_probes()).expect("no file is involved");
    assert_eq!(changes.len(), 2);
    assert!(matches!(
        &changes[0],
        Change::RemovePackage { manager, packages }
            if manager == "pacman" && packages == &vec!["vim".to_string()]
    ));
    assert!(matches!(
        &changes[1],
        Change::AddPackage { manager, packages }
            if manager == "pacman" && packages == &vec!["neovim".to_string()]
    ));
    assert!(matches!(changes[0].priority(&new), Ok(33)));
    assert!(matches!(changes[1].priority(&new), Ok(33)));
}

#[test]
fn diff_only_looks_at_the_managers_of_the_new_tree() {
    let mut old = Config::default();
    old.managers.insert("apt".to_string(), Manager::default());
    old.packages.insert("apt".to_string(), packages(&["vim"]));
    let mut new = Config::default();
    new.packages.insert("apt".to_string(), packages(&["git"]));
    new.packages.insert("pip".to_string(), packages(&["black"]));
    let changes = new.diff(old, &no_probes()).expect("no file is involved");
    assert!(changes.is_empty());
}

#[test]
fn diff_keeps_common_packages() {
    let mut old = Config::default();
    old.packages.insert("apt".to_string(), packages(&["git", "vim", "zsh"]));
    let mut new = Config::default();
    new.managers.insert("apt".to_string(), Manager::default());
    new.packages.insert("apt".to_string(), packages(&["zsh", "git", "fish", "tmux"]));
    let changes = new.diff(old, &no_probes()).expect("no file is involved");
    assert_eq!(changes.len(), 2);
    assert!(matches!(
        &changes[0],
        Change::RemovePackage { packages, .. } if packages == &vec!["vim".to_string()]
    ));
    assert!(matches!(
        &changes[1],
        Change::AddPackage { packages, .. }
            if packages == &vec!["fish".to_string(), "tmux".to_string()]
    ));
}

#[test]
fn diff_runs_new_and_changed_once_hooks() {
    let mut old = Config::default();
    old.hooks.once.insert("same".to_string(), hook("echo same", 1));
    old.hooks.once.insert("changed".to_string(), hook("echo before", 2));
    old.hooks.once.insert("moved".to_string(), hook("echo moved", 3));
    let mut new = Config::default();
    new.hooks.once.insert("same".to_string(), hook("echo same", 1));
    new.hooks.once.insert("changed".to_string(), hook("echo after", 2));
    new.hooks.once.insert("moved".to_string(), hook("echo moved", 30));
    new.hooks.once.insert("fresh".to_string(), hook("echo fresh", 0));
    new.hooks.update.insert("upd".to_string(), hook("echo update", 0));
    let changes = new.diff(old, &no_probes()).expect("no file is involved");
    let seen: Vec<(String, u8)> = changes.iter().map(raw).collect();
    assert_eq!(seen, vec![("echo fresh".to_string(), 0), ("echo after".to_string(), 2)]);
}

#[test]
fn diff_against_itself_is_empty_once_files_are_in_place() {
    let mut new = Config::example();
    new.hooks.once.insert("greet".to_string(), hook("echo hi", 1));
    new.files.insert("~/.vimrc".to_string(), File::from("vimrc".to_string()));
    new.files.insert("~/.gitconfig".to_string(), File::from("gitconfig.tera".to_string()));
    let old = copy_of(&new);
    let mut probes = StrMap::new();
    probes.insert("~/.vimrc".to_string(), settled("/repo/vimrc", "/home/me/.vimrc"));
    probes.insert(
        "~/.gitconfig".to_string(),
        settled("/repo/gitconfig.tera", "/home/me/.gitconfig"),
    );
    let changes = new.diff(old, &probes).expect("every time is known");
    assert!(changes.is_empty());
}

#[test]
fn diff_against_itself_still_places_stale_files() {
    let mut new = Config::example();
    new.files.insert("a".to_string(), File::from("src-a".to_string()));
    new.files.insert("b".to_string(), File::from("src-b".to_string()));
    new.files.insert("c".to_string(), File::from("src-c".to_string()));
    new.files.insert("d".to_string(), File::from("src-d".to_string()));
    let old = copy_of(&new);
    let mut probes = StrMap::new();
    probes.insert("a".to_string(), FileProbe { target_exists: false, ..settled("/s/a", "/t/a") });
    probes.insert("b".to_string(), FileProbe { source_is_dir: true, ..settled("/s/b", "/t/b") });
    probes.insert(
        "c".to_string(),
        FileProbe { source_modified: Some(201), ..settled("/s/c", "/t/c") },
    );
    probes.insert(
        "d".to_string(),
        FileProbe { source_modified: Some(200), ..settled("/s/d", "/t/d") },
    );
    let changes = new.diff(old, &probes).expect("every time is known");
    assert_eq!(changes.len(), 3);
    assert!(matches!(&changes[0], Change::CopyFile(file, target) if file.source == "src-a" && target == "/t/a"));
    assert!(matches!(&changes[1], Change::CopyFile(file, target) if file.source == "src-b" && target == "/t/b"));
    assert!(matches!(&changes[2], Change::CopyFile(file, target) if file.source == "src-c" && target == "/t/c"));
}

#[test]
fn diff_against_the_empty_tree_treats_everything_as_new() {
    let mut new = Config::default();
    new.managers.insert("apt".to_string(), Manager { priority: 5, ..Manager::default() });
    new.managers.insert("pip".to_string(), Manager { priority: 6, ..Manager::default() });
    new.managers.insert("npm".to_string(), Manager { priority: 7, ..Manager::default() });
    new.packages.insert("apt".to_string(), packages(&["git", "vim"]));
    new.packages.insert("pip".to_string(), packages(&["black"]));
    new.hooks.once.insert("greet".to_string(), hook("echo hi", 1));
    new.files.insert("~/.vimrc".to_string(), File { priority: 9, ..File::from("vimrc".to_string()) });
    new.files.insert("~/.zshrc".to_string(), File { priority: 2, ..File::from("zshrc".to_string()) });
    let mut probes = StrMap::new();
    probes.insert("~/.vimrc".to_string(), settled("/repo/vimrc", "/home/me/.vimrc"));
    probes.insert("~/.zshrc".to_string(), settled("/repo/zshrc", "/home/me/.zshrc"));
    let changes = new.diff(Config::default(), &probes).expect("new files need no times");
    assert_eq!(changes.len(), 5);
    assert_eq!(raw(&changes[0]), ("echo hi".to_string(), 1));
    assert!(matches!(
        &changes[1],
        Change::CopyFile(file, target) if file.source == "zshrc" && target == "/home/me/.zshrc"
    ));
    assert!(matches!(
        &changes[2],
        Change::AddPackage { manager, packages }
            if manager == "apt" && packages == &vec!["git".to_string(), "vim".to_string()]
    ));
    assert!(matches!(
        &changes[3],
        Change::AddPackage { manager, packages }
            if manager == "pip" && packages == &vec!["black".to_string()]
    ));
    assert!(matches!(
        &changes[4],
        Change::CopyFile(file, target) if file.source == "vimrc" && target == "/home/me/.vimrc"
    ));
}

#[test]
fn diff_places_templates_when_the_variables_changed() {
    let build = |user: &str| {
        let mut config = Config::default();
        config.files.insert("plain".to_string(), File::from("plain.txt".to_string()));
        config.files.insert("tpl".to_string(), File::from("tpl.tera".to_string()));
        config.template.0.insert("user".to_string(), TemplateValue::Value(user.to_string()));
        config
    };
    let probes = || {
        let mut probes = StrMap::new();
        probes.insert("plain".to_string(), settled("/repo/plain.txt", "/t/plain"));
        probes.insert("tpl".to_string(), settled("/repo/tpl.tera", "/t/tpl"));
        probes
    };
    let changes = build("me").diff(build("you"), &probes()).expect("every time is known");
    assert_eq!(changes.len(), 1);
    assert!(matches!(
        &changes[0],
        Change::CopyFile(file, target) if file.source == "tpl.tera" && target == "/t/tpl"
    ));
    let changes = build("me").diff(build("me"), &probes()).expect("every time is known");
    assert!(changes.is_empty());
}

#[test]
fn diff_recognises_a_template_by_its_resolved_source() {
    let build = |user: &str| {
        let mut config = Config::default();
        config.files.insert("link".to_string(), File::from("link".to_string()));
        config.template.0.insert("user".to_string(), TemplateValue::Value(user.to_string()));
        config
    };
    let mut probes = StrMap::new();
    probes.insert("link".to_string(), settled("/repo/real.tera", "/t/link"));
    let changes = build("me").diff(build("you"), &probes).expect("every time is known");
    assert_eq!(changes.len(), 1);
}

#[test]
fn diff_fails_where_a_needed_time_is_unknown() {
    let build = || {
        let mut config = Config::default();
        config.files.insert("a".to_string(), File::from("src-a".to_string()));
        config.files.insert("b".to_string(), File::from("src-b".to_string()));
        config
    };
    let mut probes = StrMap::new();
    probes.insert("a".to_string(), FileProbe { source_modified: None, ..settled("/s/a", "/t/a") });
    probes.insert("b".to_string(), FileProbe { target_modified: None, ..settled("/s/b", "/t/b") });
    assert!(matches!(
        build().diff(build(), &probes),
        Err(ReconcileError::Io { target }) if target == "a"
    ));
    let changes = build().diff(Config::default(), &probes).expect("new files need no times");
    assert_eq!(changes.len(), 2);
}

#[test]
fn diff_fails_where_a_file_has_no_probe() {
    let mut new = Config::default();
    new.files.insert("a".to_string(), File::from("src-a".to_string()));
    new.files.insert("b".to_string(), File::from("src-b".to_string()));
    let mut probes = StrMap::new();
    probes.insert("a".to_string(), settled("/s/a", "/t/a"));
    assert!(matches!(
        new.diff(Config::default(), &probes),
        Err(ReconcileError::Unprobed { target }) if target == "b"
    ));
}

#[test]
fn diff_sorts_by_priority_and_keeps_the_order_of_ties() {
    let mut new = Config::default();
    new.managers.insert("apt".to_string(), Manager { priority: 50, ..Manager::default() });
    new.managers.insert("pip".to_string(), Manager { priority: 50, ..Manager::default() });
    new.packages.insert("apt".to_string(), packages(&["git"]));
    new.packages.insert("pip".to_string(), packages(&["black"]));
    new.hooks.once.insert("first".to_string(), hook("echo first", 0));
    new.hooks.once.insert("tie".to_string(), hook("echo tie", 50));
    new.hooks.once.insert("last".to_string(), hook("echo last", 255));
    new.files.insert("f".to_string(), File::from("src".to_string()));
    let mut old = Config::default();
    old.packages.insert("apt".to_string(), packages(&["vim"]));
    let mut probes = StrMap::new();
    probes.insert("f".to_string(), settled("/s/f", "/t/f"));
    let changes = new.diff(old, &probes).expect("new files need no times");
    assert_eq!(changes.len(), 7);
    assert_eq!(raw(&changes[0]), ("echo first".to_string(), 0));
    assert!(matches!(&changes[1], Change::RemovePackage { manager, .. } if manager == "apt"));
    assert!(matches!(&changes[2], Change::AddPackage { manager, .. } if manager == "apt"));
    assert!(matches!(&changes[3], Change::AddPackage { manager, .. } if manager == "pip"));
    assert_eq!(raw(&changes[4]), ("echo tie".to_string(), 50));
    assert!(matches!(&changes[5], Change::CopyFile(..)));
    assert_eq!(raw(&changes[6]), ("echo last".to_string(), 255));
}

#[test]
fn verdicts_follow_the_probe() {
    let probe = settled("/s/a", "/t/a");
    assert_eq!(file_verdict(false, false, &probe), Verdict::Keep);
    assert_eq!(file_verdict(true, false, &probe), Verdict::Copy);
    assert_eq!(file_verdict(false, true, &probe), Verdict::Keep);
    let template = settled("/s/a.tera", "/t/a");
    assert_eq!(file_verdict(false, true, &template), Verdict::Copy);
    assert_eq!(file_verdict(false, false, &template), Verdict::Keep);
    let missing = FileProbe { target_exists: false, ..settled("/s/a", "/t/a") };
    assert_eq!(file_verdict(false, false, &missing), Verdict::Copy);
    let dir = FileProbe { source_is_dir: true, ..settled("/s/a", "/t/a") };
    assert_eq!(file_verdict(false, false, &dir), Verdict::Copy);
    let newer = FileProbe { source_modified: Some(300), ..settled("/s/a", "/t/a") };
    assert_eq!(file_verdict(false, false, &newer), Verdict::Copy);
    let equal = FileProbe { source_modified: Some(200), ..settled("/s/a", "/t/a") };
    assert_eq!(file_verdict(false, false, &equal), Verdict::Keep);
    let blind = FileProbe { target_modified: None, ..settled("/s/a", "/t/a") };
    assert_eq!(file_verdict(false, false, &blind), Verdict::Unknown);
    assert_eq!(file_verdict(true, false, &blind), Verdict::Copy);
    let old = FileProbe { source_modified: Some(-5), target_modified: Some(-6), ..settled("a", "b") };
    assert_eq!(file_verdict(false, false, &old), Verdict::Copy);
}

#[test]
fn file_paths_expand_the_home_directory() {
    let mut config = Config::default();
    config.files.insert("~/.vimrc".to_string(), File::from("~/dotfiles/vimrc".to_string()));
    config.files.insert("/etc/hosts".to_string(), File::from("hosts".to_string()));
    config.files.insert("~user/x".to_string(), File::from("a~/b".to_string()));
    let paths = config.file_paths();
    assert_eq!(paths.len(), 3);
    assert_eq!(paths[0].key, "~/.vimrc");
    assert!(paths[0].target.ends_with("/.vimrc"));
    assert!(paths[0].source.ends_with("/dotfiles/vimrc"));
    assert_eq!(paths[0].target, shellexpand::tilde("~/.vimrc").into_owned());
    assert_eq!(paths[0].source, shellexpand::tilde("~/dotfiles/vimrc").into_owned());
    assert_eq!(paths[1].key, "/etc/hosts");
    assert_eq!(paths[1].target, "/etc/hosts");
    assert_eq!(paths[1].source, "hosts");
    assert_eq!(paths[2].key, "~user/x");
    assert_eq!(paths[2].target, "~user/x");
    assert_eq!(paths[2].source, "a~/b");
}

#[test]
fn file_paths_replace_the_tilde_where_a_home_is_known() {
    let home = shellexpand::tilde("~").into_owned();
    if home != "~" {
        let mut config = Config::default();
        config.files.insert("~/x".to_string(), File::from("~".to_string()));
        let paths = config.file_paths();
        assert_eq!(paths[0].target, format!("{}/x", home));
        assert_eq!(paths[0].source, home);
        assert_ne!(paths[0].target, "~/x");
    }
}
