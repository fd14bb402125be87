use dotty::text::{is_template, join, substitute, with_sudo};
use std::path::Path;

#[test]
fn with_sudo_prefixes_the_marker() {
    assert_eq!(with_sudo("pacman -Syu", true), "sudo pacman -Syu");
    assert_eq!(with_sudo("pacman -Syu", false), "pacman -Syu");
    assert_eq!(with_sudo("", true), "sudo ");
}

#[test]
fn join_puts_the_separator_between_items() {
    let none: Vec<String> = vec![];
    assert_eq!(join(&none, ", "), "");
    assert_eq!(join(&vec!["git".to_string()], ", "), "git");
    assert_eq!(join(&vec!["git".to_string(), "neovim".to_string()], " "), "git neovim");
    assert_eq!(
        join(&vec!["a".to_string(), "".to_string(), "c".to_string()], "--"),
        "a----c"
    );
}

#[test]
fn join_agrees_with_the_standard_library() {
    let items = vec!["α".to_string(), "b c".to_string(), "".to_string(), "d".to_string()];
    for sep in ["", " ", ", ", "→"] {
        assert_eq!(join(&items, sep), items.join(sep));
    }
}

#[test]
fn substitute_replaces_every_placeholder() {
    assert_eq!(substitute("pacman -S #:?", "git neovim"), "pacman -S git neovim");
    assert_eq!(substitute("pacman -Syu", "git"), "pacman -Syu");
    assert_eq!(substitute("#:?", "x"), "x");
    assert_eq!(substitute("#:?#:?", "ab"), "abab");
    assert_eq!(substitute("a #:? b #:? c", "-"), "a - b - c");
    assert_eq!(substitute("", "x"), "");
}

#[test]
fn substitute_leaves_partial_placeholders() {
    assert_eq!(substitute("#:", "x"), "#:");
    assert_eq!(substitute("#?:", "x"), "#?:");
    assert_eq!(substitute("##:?", "x"), "#x");
    assert_eq!(substitute("#:#:?", "x"), "#:x");
    assert_eq!(substitute("é#:?ü", "ß"), "éßü");
}

#[test]
fn substitute_does_not_rescan_what_it_inserted() {
    assert_eq!(substitute("x #:? y", "#:?"), "x #:? y");
    assert_eq!(substitute("#:?:?", "#"), "#:?");
}

#[test]
fn substitute_agrees_with_the_standard_library() {
    let commands = [
        "", "#", "#:", "#:?", "a#:?", "#:?a", "#:?#:?", "#:#:?", "##:?:?", "apt install #:? -y",
        "ü #:? ü #:?", "#:? #: ? #:?",
    ];
    for command in commands {
        for arg in ["", "git", "#:?", "a b", "ö"] {
            assert_eq!(substitute(command, arg), command.replace("#:?", arg));
        }
    }
}

#[test]
fn is_template_recognises_the_suffix() {
    assert!(is_template("config.tera"));
    assert!(is_template("/etc/app/config.toml.tera"));
    assert!(is_template("dir.d/x.tera"));
    assert!(!is_template("config.toml"));
    assert!(!is_template("config.tera.bak"));
    assert!(!is_template("tera"));
    assert!(!is_template(""));
}

#[test]
fn is_template_asks_for_a_stem() {
    assert!(!is_template(".tera"));
    assert!(!is_template("dir/.tera"));
    assert!(is_template("..tera"));
    assert!(is_template("a.tera"));
}

#[test]
fn is_template_looks_past_trailing_separators() {
    assert!(is_template("a.tera/"));
    assert!(is_template("a.tera//"));
    assert!(is_template("a.tera/."));
    assert!(is_template("a.tera/./"));
    assert!(!is_template("a.tera/.."));
    assert!(!is_template("a.tera/b"));
}

#[test]
fn is_template_agrees_with_path_extension() {
    let paths = [
        "", ".", "..", "/", "//", "./", "/.", "a", "a.", "a.tera", ".tera", "..tera", "...tera",
        "a.tera/", "a.tera/.", "a.tera/./", "a.tera/./.", "a.tera/..", "a.tera//.//", "/.tera",
        "/a.tera", "./a.tera", "./.tera", "x/y.tera", "x.tera/y", "x/.tera", "x/a.b.tera",
        "a.tera.", "a.TERA", "a.teraa", "a tera", "ä.tera", "dir/ä.tera/", "~/.config/x.tera",
        "a/.", "a/..", ".tera/", "b.tera/.tera", "b/.tera/.", "tera", ".a.tera", "a..tera",
    ];
    for path in paths {
        let expected = Path::new(path).extension().is_some_and(|ext| ext == "tera");
        assert_eq!(is_template(path), expected, "path {:?}", path);
    }
}
