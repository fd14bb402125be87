use dotty::action::{construct_command, invoke, Action};
use dotty::change::{Change, ConfigError};
use dotty::config::{Config, File, Manager};
use dotty::steps::Step;
use dotty::strmap::StrMap;
use dotty::template::TemplateValue;

fn manager(add: Option<&str>, remove: Option<&str>, sudo: bool, sep: &str) -> Manager {
    Manager {
        add: add.map(|s| s.to_string()),
        remove: remove.map(|s| s.to_string()),
        update: None,
        sudo,
        seperator: sep.to_string(),
        priority: 7,
    }
}

fn names(items: &[&str]) -> Vec<String> {
    items.iter().map(|s| s.to_string()).collect()
}

fn run(action: &Action) -> (String, bool) {
    match action {
        Action::Run { command, sudo } => (command.clone(), *sudo),
        _ => panic!("a run action was expected"),
    }
}

fn file(source: &str, sudo: bool, post_hook: Option<&str>) -> File {
    File {
        source: source.to_string(),
        priority: 50,
        post_hook: post_hook.map(|s| s.to_string()),
        sudo,
    }
}

#[test]
fn invoke_joins_or_repeats() {
    assert_eq!(
        invoke("apt install #:?", &names(&["git", "vim"]), " "),
        vec!["apt install git vim".to_string()]
    );
    assert_eq!(
        invoke("apt install #:?", &names(&["git", "vim"]), ""),
        vec!["apt install git".to_string(), "apt install vim".to_string()]
    );
    assert_eq!(invoke("apt install #:?", &names(&[]), ","), vec!["apt install ".to_string()]);
    assert!(invoke("apt install #:?", &names(&[]), "").is_empty());
}

#[test]
fn construct_command_tags_the_privilege_of_the_manager() {
    let pacman = manager(Some("pacman -S #:?"), None, true, " ");
    let actions = construct_command(names(&["git", "neovim"]), &pacman, "pacman -S #:?");
    assert_eq!(actions.len(), 1);
    assert_eq!(run(&actions[0]), ("pacman -S git neovim".to_string(), true));
    let cargo = manager(Some("cargo install #:?"), None, false, "");
    let actions = construct_command(names(&["bat", "fd"]), &cargo, "cargo install #:?");
    assert_eq!(actions.len(), 2);
    assert_eq!(run(&actions[0]), ("cargo install bat".to_string(), false));
    assert_eq!(run(&actions[1]), ("cargo install fd".to_string(), false));
}

#[test]
fn package_changes_compile_to_the_command_of_the_manager() {
    let mut config = Config::default();
    config.managers.insert(
        "pacman".to_string(),
        manager(Some("pacman -S #:?"), Some("pacman -Rns #:?"), true, " "),
    );
    let add = Change::AddPackage { manager: "pacman".to_string(), packages: names(&["git"]) };
    let actions = add.action(&config, None).expect("the manager is known");
    assert_eq!(actions.len(), 1);
    assert_eq!(run(&actions[0]), ("pacman -S git".to_string(), true));
    let remove = Change::RemovePackage {
        manager: "pacman".to_string(),
        packages: names(&["vim", "nano"]),
    };
    let actions = remove.action(&config, None).expect("the manager is known");
    assert_eq!(actions.len(), 1);
    assert_eq!(run(&actions[0]), ("pacman -Rns vim nano".to_string(), true));
}

#[test]
fn a_manager_without_the_command_compiles_to_nothing() {
    let mut config = Config::default();
    config.managers.insert("brew".to_string(), manager(Some("brew install #:?"), None, false, " "));
    let remove = Change::RemovePackage { manager: "brew".to_string(), packages: names(&["git"]) };
    assert!(remove.action(&config, None).expect("the manager is known").is_empty());
    config.managers.insert("nix".to_string(), manager(None, Some("nix rm #:?"), false, " "));
    let add = Change::AddPackage { manager: "nix".to_string(), packages: names(&["git"]) };
    assert!(add.action(&config, None).expect("the manager is known").is_empty());
}

#[test]
fn an_unknown_manager_is_an_error() {
    let config = Config::default();
    let add = Change::AddPackage { manager: "pacman".to_string(), packages: names(&["git"]) };
    assert!(matches!(
        add.action(&config, None),
        Err(ConfigError::ManagerNotFound { manager }) if manager == "pacman"
    ));
    let remove = Change::RemovePackage { manager: "apt".to_string(), packages: names(&["git"]) };
    assert!(matches!(
        remove.action(&config, None),
        Err(ConfigError::ManagerNotFound { manager }) if manager == "apt"
    ));
}

#[test]
fn a_raw_command_runs_without_privilege() {
    let config = Config::default();
    let change = Change::RawCommand { command: "sudo systemctl restart x".to_string(), priority: 1 };
    let actions = change.action(&config, None).expect("commands always compile");
    assert_eq!(actions.len(), 1);
    assert_eq!(run(&actions[0]), ("sudo systemctl restart x".to_string(), false));
}

#[test]
fn a_file_is_copied_with_or_without_privilege() {
    let config = Config::default();
    let plain = Change::CopyFile(file("~/src/vimrc", false, None), "/home/me/.vimrc".to_string());
    let actions = plain.action(&config, None).expect("a plain copy compiles");
    assert_eq!(actions.len(), 1);
    assert!(matches!(
        &actions[0],
        Action::Copy(source, target) if source == "~/src/vimrc" && target == "/home/me/.vimrc"
    ));
    let elevated = Change::CopyFile(file("hosts", true, None), "/etc/hosts".to_string());
    let actions = elevated.action(&config, None).expect("an elevated copy compiles");
    assert_eq!(actions.len(), 1);
    assert!(matches!(
        &actions[0],
        Action::CopySudo(source, target) if source == "hosts" && target == "/etc/hosts"
    ));
}

#[test]
fn the_post_hook_follows_the_file() {
    let config = Config::default();
    let change = Change::CopyFile(
        file("nginx.conf", true, Some("systemctl reload nginx")),
        "/etc/nginx/nginx.conf".to_string(),
    );
    let actions = change.action(&config, None).expect("the copy compiles");
    assert_eq!(actions.len(), 2);
    assert!(matches!(&actions[0], Action::CopySudo(..)));
    assert_eq!(run(&actions[1]), ("systemctl reload nginx".to_string(), false));
}

fn render(config: &Config, body: &str) -> Option<Result<String, String>> {
    let context = config.template.context().expect("the variables make a context");
    Some(tera::Tera::one_off(body, &context, false).map_err(|error| {
        let mut message = error.to_string();
        let mut cause = std::error::Error::source(&error);
        while let Some(inner) = cause {
            message.push_str(": ");
            message.push_str(&inner.to_string());
            cause = inner.source();
        }
        message
    }))
}

fn template(post_hook: Option<&str>) -> Change {
    Change::CopyFile(file("gitconfig.tera", false, post_hook), "/home/me/.gitconfig".to_string())
}

#[test]
fn a_template_is_stored_as_its_rendered_text() {
    let config = Config::default();
    let change = template(Some("echo done"));
    assert_eq!(change.template_source().map(|s| s.as_str()), Some("gitconfig.tera"));
    let actions = change
        .action(&config, Some(Ok("[user]\nname = me\n".to_string())))
        .expect("a rendered template compiles");
    assert_eq!(actions.len(), 2);
    assert!(matches!(
        &actions[0],
        Action::StoreFile(text, target)
            if text == "[user]\nname = me\n" && target == "/home/me/.gitconfig"
    ));
    assert_eq!(run(&actions[1]), ("echo done".to_string(), false));
}

#[test]
fn a_failed_rendering_is_an_error() {
    let config = Config::default();
    assert!(matches!(
        template(Some("echo never")).action(&config, Some(Err("no such variable".to_string()))),
        Err(ConfigError::Render { source, message })
            if source == "gitconfig.tera" && message == "no such variable"
    ));
}

#[test]
fn a_template_without_a_rendering_is_an_error() {
    let config = Config::default();
    assert!(matches!(
        template(None).action(&config, None),
        Err(ConfigError::NotRendered { source }) if source == "gitconfig.tera"
    ));
}

#[test]
fn a_template_is_rendered_with_the_variables_of_the_tree() {
    let mut config = Config::default();
    config.template.0.insert("user".to_string(), TemplateValue::Value("me".to_string()));
    let mut colors = StrMap::new();
    colors.insert("fg".to_string(), TemplateValue::Value("white".to_string()));
    colors.insert("bg".to_string(), TemplateValue::Value("black".to_string()));
    config.template.0.insert("colors".to_string(), TemplateValue::Mapping(colors));
    config.template.0.insert(
        "paths".to_string(),
        TemplateValue::Sequence(vec![
            TemplateValue::Value("/bin".to_string()),
            TemplateValue::Value("/opt/bin".to_string()),
        ]),
    );
    let body = "name = {{ user }}\nfg = {{ colors.fg }} on {{ colors.bg }}\n\
        {% for path in paths %}path {{ loop.index }}: {{ path }}\n{% endfor %}";
    let actions = template(Some("echo done"))
        .action(&config, render(&config, body))
        .expect("the template renders");
    assert_eq!(actions.len(), 2);
    match &actions[0] {
        Action::StoreFile(text, target) => {
            assert_eq!(
                text,
                "name = me\nfg = white on black\npath 1: /bin\npath 2: /opt/bin\n"
            );
            assert_eq!(target, "/home/me/.gitconfig");
        }
        _ => panic!("a template is stored"),
    }
    assert_eq!(run(&actions[1]), ("echo done".to_string(), false));
}

#[test]
fn the_context_renders_without_escaping() {
    let mut config = Config::default();
    config.template.0.insert("tag".to_string(), TemplateValue::Value("<a&b>".to_string()));
    let actions = template(None)
        .action(&config, render(&config, "{{ tag }}"))
        .expect("the template renders");
    assert!(matches!(&actions[0], Action::StoreFile(text, _) if text == "<a&b>"));
}

#[test]
fn a_failed_rendering_is_reported_with_its_message() {
    let config = Config::default();
    match template(None).action(&config, render(&config, "{{ missing }}")) {
        Err(ConfigError::Render { source, message }) => {
            assert_eq!(source, "gitconfig.tera");
            assert!(message.contains("missing"), "message {:?}", message);
        }
        _ => panic!("an unknown variable fails the rendering"),
    }
    assert!(matches!(
        template(None).action(&config, render(&config, "{% if %}")),
        Err(ConfigError::Render { .. })
    ));
}

#[test]
fn the_variables_make_the_context() {
    let mut config = Config::default();
    config.template.0.insert("a".to_string(), TemplateValue::Value("1".to_string()));
    config.template.0.insert(
        "list".to_string(),
        TemplateValue::Sequence(vec![TemplateValue::Value("x".to_string())]),
    );
    let mut inner = StrMap::new();
    inner.insert("k".to_string(), TemplateValue::Value("v".to_string()));
    config.template.0.insert("map".to_string(), TemplateValue::Mapping(inner));
    let context = config.template.context().expect("a mapping makes a context");
    assert_eq!(context.get("a"), Some(&tera::Value::String("1".to_string())));
    assert_eq!(
        context.get("list"),
        Some(&tera::Value::Array(vec![tera::Value::String("x".to_string())]))
    );
    let map = context.get("map").expect("the mapping is there");
    assert_eq!(map.get("k"), Some(&tera::Value::String("v".to_string())));
    assert_eq!(context.get("b"), None);
    assert_eq!(render(&config, "{{ a }}+{{ a }}"), Some(Ok("1+1".to_string())));
    assert!(Config::default().template.context().is_ok());
}

#[test]
fn a_sudo_template_fails_compilation() {
    let config = Config::default();
    let change = Change::CopyFile(
        file("/srv/etc/hosts.tera", true, Some("echo never")),
        "/etc/hosts".to_string(),
    );
    assert_eq!(change.template_source(), None);
    assert!(matches!(
        change.action(&config, Some(Err("failed".to_string()))),
        Err(ConfigError::SudoTemplate { source }) if source == "/srv/etc/hosts.tera"
    ));
    let again = Change::CopyFile(file("/srv/etc/hosts.tera", true, None), "/etc/hosts".to_string());
    assert!(matches!(again.action(&config, None), Err(ConfigError::SudoTemplate { .. })));
    let third = Change::CopyFile(file("/srv/etc/hosts.tera", true, None), "/etc/hosts".to_string());
    assert!(matches!(
        third.action(&config, Some(Ok("rendered".to_string()))),
        Err(ConfigError::SudoTemplate { .. })
    ));
}

#[test]
fn rendered_text_is_ignored_where_no_template_is_placed() {
    let config = Config::default();
    let change = Change::CopyFile(file("plain.txt", false, None), "/tmp/plain".to_string());
    assert_eq!(change.template_source(), None);
    let actions = change.action(&config, Some(Ok("unused".to_string()))).expect("a copy compiles");
    assert_eq!(actions.len(), 1);
    assert!(matches!(&actions[0], Action::Copy(..)));
    let again = Change::CopyFile(file("plain.txt", false, None), "/tmp/plain".to_string());
    let actions = again.action(&config, Some(Err("unused".to_string()))).expect("a copy compiles");
    assert!(matches!(&actions[0], Action::Copy(..)));
    let command = Change::RawCommand { command: "true".to_string(), priority: 0 };
    assert_eq!(command.template_source(), None);
}

#[test]
fn priority_is_that_of_the_manager_or_the_change() {
    let mut config = Config::default();
    config.managers.insert("pacman".to_string(), manager(None, None, false, " "));
    let add = Change::AddPackage { manager: "pacman".to_string(), packages: names(&["git"]) };
    assert!(matches!(add.priority(&config), Ok(7)));
    let remove = Change::RemovePackage { manager: "pacman".to_string(), packages: names(&[]) };
    assert!(matches!(remove.priority(&config), Ok(7)));
    let unknown = Change::AddPackage { manager: "apt".to_string(), packages: names(&["git"]) };
    assert!(matches!(
        unknown.priority(&config),
        Err(ConfigError::ManagerNotFound { manager }) if manager == "apt"
    ));
    let command = Change::RawCommand { command: "true".to_string(), priority: 200 };
    assert!(matches!(command.priority(&config), Ok(200)));
    let copy = Change::CopyFile(
        File { priority: 3, ..File::from("a".to_string()) },
        "b".to_string(),
    );
    assert!(matches!(copy.priority(&config), Ok(3)));
}

#[test]
fn steps_of_a_command() {
    let plain = Action::Run { command: "make".to_string(), sudo: false };
    assert_eq!(plain.copy_source(), None);
    let steps = plain.steps(false);
    assert_eq!(steps.len(), 1);
    assert!(matches!(&steps[0], Step::Shell { line } if line == "make"));
    let elevated = Action::Run { command: "make install".to_string(), sudo: true };
    let steps = elevated.steps(true);
    assert_eq!(steps.len(), 1);
    assert!(matches!(&steps[0], Step::Shell { line } if line == "sudo make install"));
}

#[test]
fn steps_of_a_copy() {
    let copy = Action::Copy("src".to_string(), "dst".to_string());
    assert_eq!(copy.copy_source().map(|s| s.as_str()), Some("src"));
    let steps = copy.steps(false);
    assert_eq!(steps.len(), 2);
    assert!(matches!(&steps[0], Step::MakeParentDirs { path, sudo: false } if path == "dst"));
    assert!(matches!(
        &steps[1],
        Step::CopyFile { source, target, sudo: false } if source == "src" && target == "dst"
    ));
    let steps = copy.steps(true);
    assert_eq!(steps.len(), 2);
    assert!(matches!(&steps[0], Step::MakeDirs { path, sudo: false } if path == "dst"));
    assert!(matches!(
        &steps[1],
        Step::CopyTree { source, target, sudo: false } if source == "src" && target == "dst"
    ));
}

#[test]
fn steps_of_an_elevated_copy() {
    let copy = Action::CopySudo("src".to_string(), "/etc/dst".to_string());
    assert_eq!(copy.copy_source().map(|s| s.as_str()), Some("src"));
    let steps = copy.steps(false);
    assert_eq!(steps.len(), 2);
    assert!(matches!(&steps[0], Step::MakeParentDirs { path, sudo: true } if path == "/etc/dst"));
    assert!(matches!(&steps[1], Step::CopyFile { sudo: true, .. }));
    let steps = copy.steps(true);
    assert_eq!(steps.len(), 2);
    assert!(matches!(&steps[0], Step::MakeDirs { path, sudo: true } if path == "/etc/dst"));
    assert!(matches!(&steps[1], Step::CopyTree { sudo: true, .. }));
}

#[test]
fn steps_of_a_stored_text() {
    let store = Action::StoreFile("text".to_string(), "/tmp/out".to_string());
    assert_eq!(store.copy_source(), None);
    let steps = store.steps(true);
    assert_eq!(steps.len(), 2);
    assert!(matches!(&steps[0], Step::MakeParentDirs { path, sudo: false } if path == "/tmp/out"));
    assert!(matches!(
        &steps[1],
        Step::Write { path, text } if path == "/tmp/out" && text == "text"
    ));
}
