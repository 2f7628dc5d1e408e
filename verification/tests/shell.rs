use atuin_export::cli::Cli;
use atuin_export::shell::{parse_shell, shell_from_lowercase, Shell};

#[test]
fn shell_names_parse_ignoring_case() {
    assert_eq!(parse_shell("fish"), Ok(Shell::Fish));
    assert_eq!(parse_shell("BASH"), Ok(Shell::Bash));
    assert_eq!(parse_shell("Zsh"), Ok(Shell::Zsh));
    assert_eq!(
        parse_shell("tcsh"),
        Err("unknown shell: tcsh (expected fish, bash, or zsh)".to_string())
    );
    assert_eq!("FISH".parse::<Shell>(), Ok(Shell::Fish));
    assert_eq!(shell_from_lowercase("fish"), Some(Shell::Fish));
    assert_eq!(shell_from_lowercase("Fish"), None);
}

#[test]
fn shell_from_shell_path() {
    assert_eq!(Shell::from_shell_path("/usr/bin/fish"), Some(Shell::Fish));
    assert_eq!(Shell::from_shell_path("/bin/ZSH/"), Some(Shell::Zsh));
    assert_eq!(Shell::from_shell_path("bash"), Some(Shell::Bash));
    assert_eq!(Shell::from_shell_path("/bin/sh"), None);
    assert_eq!(Shell::from_shell_path("/bin/fish/.."), None);
    assert_eq!(Shell::from_shell_path(""), None);
}

#[test]
fn default_history_paths() {
    assert_eq!(
        Shell::Fish.default_history_path("/home/u", Some("/x".into())),
        "/home/u/.local/share/fish/fish_history"
    );
    assert_eq!(Shell::Bash.default_history_path("/home/u", None), "/home/u/.bash_history");
    assert_eq!(Shell::Bash.default_history_path("/home/u/", Some("/x".into())), "/x");
    assert_eq!(Shell::Zsh.default_history_path("/", None), "/.zsh_history");
    assert_eq!(Shell::Zsh.default_history_path("", Some(String::new())), "");
}

#[test]
fn cli_plan_fills_defaults() {
    let cli = Cli { shell: None, output: None, db: None };
    assert!(cli.plan("/h", None, None).is_none());
    let p = cli.plan("/h", Some(Shell::Zsh), None).unwrap();
    assert_eq!(p.shell, Shell::Zsh);
    assert_eq!(p.db, "/h/.local/share/atuin/history.db");
    assert_eq!(p.output, "/h/.zsh_history");
    let cli = Cli { shell: Some(Shell::Fish), output: Some("o".into()), db: Some("d".into()) };
    let p = cli.plan("/h", Some(Shell::Bash), Some("/hf".into())).unwrap();
    assert_eq!(p.shell, Shell::Fish);
    assert_eq!(p.db, "d");
    assert_eq!(p.output, "o");
}
