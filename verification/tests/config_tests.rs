use dotty::config::{Config, File, Hook, Manager, TemplateContext, DEFAULT_PRIORITY};
use dotty::strset::StrSet;
use dotty::template::{MergeConflict, TemplateValue};

fn packages(names: &[&str]) -> StrSet {
    let mut set = StrSet::new();
    for name in names {
        set.insert(name.to_string());
    }
    set
}

fn leaf(text: &str) -> TemplateValue {
    TemplateValue::Value(text.to_string())
}

fn hook(command: &str, priority: u8) -> Hook {
    Hook { command: command.to_string(), priority }
}

#[test]
fn defaults_are_as_documented() {
    let manager = Manager::default();
    assert_eq!(manager.add, None);
    assert_eq!(manager.remove, None);
    assert_eq!(manager.update, None);
    assert!(!manager.sudo);
    assert_eq!(manager.seperator, "");
    assert_eq!(manager.priority, 50);
    let file = File::default();
    assert_eq!(file.source, "");
    assert_eq!(file.priority, 50);
    assert_eq!(file.post_hook, None);
    assert!(!file.sudo);
    let hook = Hook::default();
    assert_eq!(hook.command, "");
    assert_eq!(hook.priority, 50);
    assert_eq!(DEFAULT_PRIORITY, 50);
    let config = Config::default();
    assert!(config.managers.is_empty());
    assert!(config.packages.is_empty());
    assert!(config.hooks.once.is_empty());
    assert!(config.hooks.update.is_empty());
    assert!(config.files.is_empty());
    assert!(config.template.0.is_empty());
    assert!(config.module.import.is_empty());
    assert!(!config.module.disable);
}

#[test]
fn a_bare_string_stands_for_a_file_or_a_hook() {
    let file = File::from("~/dotfiles/vimrc".to_string());
    assert_eq!(file.source, "~/dotfiles/vimrc");
    assert_eq!(file.priority, 50);
    assert_eq!(file.post_hook, None);
    assert!(!file.sudo);
    let hook: Hook = "echo hi".to_string().into();
    assert_eq!(hook.command, "echo hi");
    assert_eq!(hook.priority, 50);
}

#[test]
fn clones_are_equal_field_by_field() {
    let file = File {
        source: "a".to_string(),
        priority: 3,
        post_hook: Some("reload".to_string()),
        sudo: true,
    };
    let copy = file.clone();
    assert_eq!(copy.source, "a");
    assert_eq!(copy.priority, 3);
    assert_eq!(copy.post_hook, Some("reload".to_string()));
    assert!(copy.sudo);
    let manager = Manager {
        add: Some("add #:?".to_string()),
        remove: None,
        update: Some("up".to_string()),
        sudo: true,
        seperator: ",".to_string(),
        priority: 9,
    };
    let twin = manager.clone();
    assert_eq!(twin.add, Some("add #:?".to_string()));
    assert_eq!(twin.remove, None);
    assert_eq!(twin.update, Some("up".to_string()));
    assert!(twin.sudo);
    assert_eq!(twin.seperator, ",");
    assert_eq!(twin.priority, 9);
}

#[test]
fn example_holds_pacman_and_two_packages() {
    let config = Config::example();
    assert_eq!(config.managers.len(), 1);
    let pacman = config.managers.get("pacman").expect("the example has pacman");
    assert_eq!(pacman.add, Some("pacman -S #:?".to_string()));
    assert_eq!(pacman.remove, Some("pacman -Rns #:?".to_string()));
    assert_eq!(pacman.update, Some("pacman -Syu".to_string()));
    assert!(pacman.sudo);
    assert_eq!(pacman.seperator, " ");
    assert_eq!(pacman.priority, 50);
    let wanted = config.packages.get("pacman").expect("the example has packages");
    assert_eq!(wanted.len(), 2);
    assert!(wanted.contains("neovim"));
    assert!(wanted.contains("git"));
    assert!(config.files.is_empty());
    assert!(config.hooks.once.is_empty());
    assert!(config.hooks.update.is_empty());
    assert!(config.template.0.is_empty());
    assert!(config.imports().is_empty());
}

#[test]
fn combine_lets_the_incoming_entry_win() {
    let mut target = Config::default();
    target.managers.insert("apt".to_string(), Manager { priority: 1, ..Manager::default() });
    target.managers.insert("pip".to_string(), Manager { priority: 2, ..Manager::default() });
    target.hooks.once.insert("greet".to_string(), hook("echo old", 5));
    target.hooks.update.insert("sync".to_string(), hook("sync old", 5));
    target.files.insert("~/.vimrc".to_string(), File::from("old".to_string()));
    let mut incoming = Config::default();
    incoming.managers.insert("pip".to_string(), Manager { priority: 20, ..Manager::default() });
    incoming.managers.insert("npm".to_string(), Manager { priority: 30, ..Manager::default() });
    incoming.hooks.once.insert("greet".to_string(), hook("echo new", 6));
    incoming.hooks.update.insert("sync".to_string(), hook("sync new", 7));
    incoming.files.insert("~/.vimrc".to_string(), File::from("new".to_string()));
    assert!(target.combine(incoming).is_ok());
    assert_eq!(target.managers.len(), 3);
    assert_eq!(target.managers.key_at(0).as_str(), "apt");
    assert_eq!(target.managers.key_at(1).as_str(), "pip");
    assert_eq!(target.managers.key_at(2).as_str(), "npm");
    assert_eq!(target.managers.get("apt").map(|m| m.priority), Some(1));
    assert_eq!(target.managers.get("pip").map(|m| m.priority), Some(20));
    assert_eq!(target.managers.get("npm").map(|m| m.priority), Some(30));
    assert_eq!(target.hooks.once.get("greet").map(|h| h.command.as_str()), Some("echo new"));
    assert_eq!(target.hooks.update.get("sync").map(|h| h.priority), Some(7));
    assert_eq!(target.files.get("~/.vimrc").map(|f| f.source.as_str()), Some("new"));
}

#[test]
fn combine_joins_the_packages_of_a_manager() {
    let mut target = Config::default();
    target.packages.insert("apt".to_string(), packages(&["git", "vim"]));
    let mut incoming = Config::default();
    incoming.packages.insert("pip".to_string(), packages(&["black"]));
    incoming.packages.insert("apt".to_string(), packages(&["vim", "zsh"]));
    assert!(target.combine(incoming).is_ok());
    assert_eq!(target.packages.len(), 2);
    assert_eq!(target.packages.key_at(0).as_str(), "apt");
    assert_eq!(target.packages.key_at(1).as_str(), "pip");
    let apt = target.packages.get("apt").expect("apt stays");
    assert_eq!(
        apt.items().clone(),
        vec!["git".to_string(), "vim".to_string(), "zsh".to_string()]
    );
    let pip = target.packages.get("pip").expect("pip joins");
    assert_eq!(pip.items().clone(), vec!["black".to_string()]);
}

#[test]
fn combine_keeps_the_import_directives_of_the_target() {
    let mut target = Config::default();
    target.module.import.insert("a.toml".to_string());
    let mut incoming = Config::default();
    incoming.module.import.insert("b.toml".to_string());
    incoming.module.disable = true;
    assert!(target.combine(incoming).is_ok());
    assert_eq!(target.module.import.items().clone(), vec!["a.toml".to_string()]);
    assert!(!target.module.disable);
}

#[test]
fn combine_merges_template_variables() {
    let mut target = Config::default();
    target.template.0.insert("paths".to_string(), TemplateValue::Sequence(vec![leaf("/bin")]));
    target.template.0.insert("user".to_string(), leaf("me"));
    let mut incoming = Config::default();
    incoming.template.0.insert("paths".to_string(), TemplateValue::Sequence(vec![leaf("/opt")]));
    incoming.template.0.insert("host".to_string(), leaf("box"));
    assert!(target.combine(incoming).is_ok());
    assert_eq!(target.template.0.len(), 3);
    match target.template.0.get("paths") {
        Some(TemplateValue::Sequence(items)) => assert_eq!(items.len(), 2),
        _ => panic!("paths stays a sequence"),
    }
    assert!(matches!(target.template.0.get("host"), Some(TemplateValue::Value(s)) if s == "box"));
}

#[test]
fn combine_fails_on_a_template_conflict_and_changes_nothing() {
    let mut target = Config::default();
    target.template.0.insert("user".to_string(), leaf("me"));
    target.managers.insert("apt".to_string(), Manager::default());
    let mut incoming = Config::default();
    incoming.template.0.insert("user".to_string(), leaf("you"));
    incoming.managers.insert("pip".to_string(), Manager::default());
    incoming.packages.insert("pip".to_string(), packages(&["black"]));
    match target.combine(incoming) {
        Err(MergeConflict { path, existing, incoming }) => {
            assert_eq!(path, vec!["user".to_string()]);
            assert!(matches!(existing, TemplateValue::Value(text) if text == "me"));
            assert!(matches!(incoming, TemplateValue::Value(text) if text == "you"));
        }
        _ => panic!("two leaves under one name conflict"),
    }
    assert_eq!(target.managers.len(), 1);
    assert!(target.packages.is_empty());
    assert!(matches!(target.template.0.get("user"), Some(TemplateValue::Value(s)) if s == "me"));
}

#[test]
fn template_contexts_compare_like_mappings() {
    let mut one = TemplateContext::default();
    one.0.insert("a".to_string(), TemplateValue::Sequence(vec![leaf("x")]));
    let mut two = TemplateContext::default();
    two.0.insert("a".to_string(), TemplateValue::Sequence(vec![leaf("y"), leaf("x")]));
    assert!(one == two);
    assert!(two != one);
    assert!(TemplateContext::default() == TemplateContext::default());
    assert!(one != TemplateContext::default());
}

#[test]
fn imports_lists_what_has_to_be_loaded() {
    let mut config = Config::default();
    config.module.import.insert("a.toml".to_string());
    config.module.import.insert("sub/b.toml".to_string());
    assert_eq!(config.imports(), vec!["a.toml".to_string(), "sub/b.toml".to_string()]);
    config.module.disable = true;
    assert!(config.imports().is_empty());
}

#[test]
fn load_dependencies_folds_the_fragments_and_clears_the_imports() {
    let mut config = Config::default();
    config.module.import.insert("a.toml".to_string());
    config.module.import.insert("b.toml".to_string());
    config.packages.insert("apt".to_string(), packages(&["git"]));
    let mut first = Config::default();
    first.packages.insert("apt".to_string(), packages(&["vim"]));
    first.hooks.once.insert("greet".to_string(), hook("echo a", 1));
    let mut second = Config::default();
    second.packages.insert("apt".to_string(), packages(&["zsh"]));
    second.hooks.once.insert("greet".to_string(), hook("echo b", 2));
    assert!(config.load_dependencies(vec![first, second]).is_ok());
    assert!(config.module.import.is_empty());
    assert!(!config.module.disable);
    let apt = config.packages.get("apt").expect("apt stays");
    assert_eq!(
        apt.items().clone(),
        vec!["git".to_string(), "vim".to_string(), "zsh".to_string()]
    );
    assert_eq!(config.hooks.once.get("greet").map(|h| h.command.as_str()), Some("echo b"));
}

#[test]
fn load_dependencies_empties_a_disabled_tree() {
    let mut config = Config::example();
    config.module.disable = true;
    config.module.import.insert("a.toml".to_string());
    let mut fragment = Config::default();
    fragment.managers.insert("apt".to_string(), Manager::default());
    assert!(config.load_dependencies(vec![fragment]).is_ok());
    assert!(config.managers.is_empty());
    assert!(config.packages.is_empty());
    assert!(config.module.import.is_empty());
    assert!(!config.module.disable);
}

#[test]
fn load_dependencies_stops_at_the_first_conflict() {
    let mut config = Config::default();
    config.module.import.insert("a.toml".to_string());
    config.template.0.insert("user".to_string(), leaf("me"));
    let mut fine = Config::default();
    fine.managers.insert("apt".to_string(), Manager::default());
    let mut clash = Config::default();
    clash.template.0.insert("user".to_string(), leaf("you"));
    let mut late = Config::default();
    late.managers.insert("pip".to_string(), Manager::default());
    let done = config.load_dependencies(vec![fine, clash, late]);
    assert!(matches!(
        done,
        Err(MergeConflict { existing: TemplateValue::Value(_), incoming: TemplateValue::Value(_), .. })
    ));
    assert!(config.managers.contains_key("apt"));
    assert!(!config.managers.contains_key("pip"));
}

fn fragment(name: &str, priority: u8, wanted: &[&str], paths: &[&str]) -> Config {
    let mut config = Config::default();
    config.managers.insert("apt".to_string(), Manager { priority, ..Manager::default() });
    config.managers.insert(name.to_string(), Manager::default());
    config.packages.insert("apt".to_string(), packages(wanted));
    config.hooks.once.insert("greet".to_string(), hook(name, priority));
    config.files.insert("~/.rc".to_string(), File::from(name.to_string()));
    config.template.0.insert(
        "paths".to_string(),
        TemplateValue::Sequence(paths.iter().map(|path| leaf(path)).collect()),
    );
    config.template.0.insert(name.to_string(), leaf(name));
    config
}

fn summary(config: &Config) -> Vec<String> {
    let mut lines = Vec::new();
    for i in 0..config.managers.len() {
        lines.push(format!(
            "manager {} {}",
            config.managers.key_at(i),
            config.managers.value_at(i).priority
        ));
    }
    for i in 0..config.packages.len() {
        let mut names = config.packages.value_at(i).items().clone();
        names.sort();
        lines.push(format!("packages {} {:?}", config.packages.key_at(i), names));
    }
    for i in 0..config.hooks.once.len() {
        lines.push(format!(
            "hook {} {}",
            config.hooks.once.key_at(i),
            config.hooks.once.value_at(i).command
        ));
    }
    for i in 0..config.files.len() {
        lines.push(format!("file {} {}", config.files.key_at(i), config.files.value_at(i).source));
    }
    for i in 0..config.template.0.len() {
        lines.push(format!(
            "template {} {:?}",
            config.template.0.key_at(i),
            config.template.0.value_at(i)
        ));
    }
    lines.sort();
    lines
}

#[test]
fn combine_is_associative() {
    let a = || fragment("a", 1, &["git"], &["/a"]);
    let b = || fragment("b", 2, &["vim", "git"], &["/b"]);
    let c = || fragment("c", 3, &["zsh"], &["/c", "/a"]);
    let mut left = a();
    assert!(left.combine(b()).is_ok());
    assert!(left.combine(c()).is_ok());
    let mut later = b();
    assert!(later.combine(c()).is_ok());
    let mut right = a();
    assert!(right.combine(later).is_ok());
    assert_eq!(summary(&left), summary(&right));
    assert!(left.template == right.template);
    assert!(right.template == left.template);
    assert_eq!(left.managers.get("apt").map(|m| m.priority), Some(3));
    match left.template.0.get("paths") {
        Some(TemplateValue::Sequence(items)) => assert_eq!(items.len(), 4),
        _ => panic!("paths stays a sequence"),
    }
}

#[test]
fn combine_commutes_where_the_trees_agree() {
    let a = || {
        let mut config = Config::default();
        config.managers.insert("apt".to_string(), Manager::default());
        config.packages.insert("apt".to_string(), packages(&["git"]));
        config.template.0.insert("a".to_string(), leaf("1"));
        config
    };
    let b = || {
        let mut config = Config::default();
        config.managers.insert("pip".to_string(), Manager::default());
        config.packages.insert("apt".to_string(), packages(&["vim"]));
        config.template.0.insert("b".to_string(), leaf("2"));
        config
    };
    let mut one = a();
    assert!(one.combine(b()).is_ok());
    let mut two = b();
    assert!(two.combine(a()).is_ok());
    assert_eq!(summary(&one), summary(&two));
}

#[test]
fn combine_does_not_commute_where_the_trees_disagree() {
    let first = || {
        let mut config = Config::default();
        config.managers.insert("apt".to_string(), Manager { priority: 1, ..Manager::default() });
        config.template.0.insert("paths".to_string(), TemplateValue::Sequence(vec![leaf("/a")]));
        config
    };
    let second = || {
        let mut config = Config::default();
        config.managers.insert("apt".to_string(), Manager { priority: 2, ..Manager::default() });
        config.template.0.insert("paths".to_string(), TemplateValue::Sequence(vec![leaf("/b")]));
        config
    };
    let mut one = first();
    assert!(one.combine(second()).is_ok());
    let mut two = second();
    assert!(two.combine(first()).is_ok());
    assert_eq!(one.managers.get("apt").map(|m| m.priority), Some(2));
    assert_eq!(two.managers.get("apt").map(|m| m.priority), Some(1));
    match (one.template.0.get("paths"), two.template.0.get("paths")) {
        (Some(TemplateValue::Sequence(x)), Some(TemplateValue::Sequence(y))) => {
            assert!(matches!(&x[0], TemplateValue::Value(s) if s == "/a"));
            assert!(matches!(&y[0], TemplateValue::Value(s) if s == "/b"));
        }
        _ => panic!("paths stays a sequence"),
    }
}
