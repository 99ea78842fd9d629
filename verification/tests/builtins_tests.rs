use minishell::builtins::{
    built_cd, built_cd_finish, built_env, built_exit, built_export, built_unset, HostAction,
};
use minishell::shell::Shell;

fn shell_with(pairs: &[(&str, &str)]) -> Shell {
    Shell::new(pairs.iter().map(|(k, v)| (k.to_string(), v.to_string())).collect())
}

fn strings(v: &[&str]) -> Vec<String> {
    v.iter().map(|s| s.to_string()).collect()
}

#[test]
fn unset_removes_each_named_variable() {
    let mut shell = shell_with(&[("A", "1"), ("B", "2"), ("C", "3")]);
    let mut args = strings(&["unset", "A", "C", "missing"]);
    assert_eq!(built_unset(&mut shell, &mut args), 0);
    assert_eq!(shell.env.get_env("A"), None);
    assert_eq!(shell.env.get_env("C"), None);
    assert_eq!(shell.env.get_env("B"), Some(&"2".to_string()));
}

#[test]
fn unset_does_not_touch_its_own_name() {
    let mut shell = shell_with(&[("unset", "1")]);
    let mut args = strings(&["unset"]);
    assert_eq!(built_unset(&mut shell, &mut args), 0);
    assert_eq!(shell.env.get_env("unset"), Some(&"1".to_string()));
}

#[test]
fn export_then_get() {
    let mut shell = shell_with(&[]);
    let mut args = strings(&["export", "NAME=value"]);
    assert_eq!(built_export(&mut shell, &mut args), (0, HostAction::Nothing));
    assert_eq!(shell.env.get_env("NAME"), Some(&"value".to_string()));
}

#[test]
fn export_splits_at_the_first_equal_sign() {
    let mut shell = shell_with(&[]);
    let mut args = strings(&["export", "a=b=c", "=x"]);
    assert_eq!(built_export(&mut shell, &mut args), (0, HostAction::Nothing));
    assert_eq!(shell.env.get_env("a"), Some(&"b=c".to_string()));
    assert_eq!(shell.env.get_env(""), Some(&"x".to_string()));
}

#[test]
fn export_stops_at_an_invalid_identifier() {
    let mut shell = shell_with(&[]);
    let mut args = strings(&["export", "A=1", "oops", "B=2"]);
    let (code, action) = built_export(&mut shell, &mut args);
    assert_eq!(code, 1);
    assert_eq!(action, HostAction::Complain("minishell: export: oops: not a valid identifier".to_string()));
    assert_eq!(shell.env.get_env("A"), Some(&"1".to_string()));
    assert_eq!(shell.env.get_env("B"), None);
}

#[test]
fn env_with_arguments_complains() {
    let shell = shell_with(&[]);
    let mut args = strings(&["env", "x", "y"]);
    assert_eq!(
        built_env(&shell, &mut args),
        (1, HostAction::Complain("minishell: env: too many arguments".to_string()))
    );
}

#[test]
fn exit_statuses() {
    let mut shell = shell_with(&[]);
    shell.error = 2;
    assert_eq!(built_exit(&mut shell, &mut strings(&["exit"])), (0, HostAction::Exit(Some(2))));
    assert_eq!(built_exit(&mut shell, &mut strings(&["exit", "-3"])), (0, HostAction::Exit(Some(-3))));
    assert_eq!(built_exit(&mut shell, &mut strings(&["exit", "3x"])), (0, HostAction::Exit(None)));
    assert_eq!(
        built_exit(&mut shell, &mut strings(&["exit", "1", "2"])),
        (1, HostAction::Complain("minishell: exit: too many arguments".to_string()))
    );
}

#[test]
fn cd_records_the_old_directory() {
    let mut shell = shell_with(&[("PWD", "/a")]);
    let mut args = strings(&["cd", "/b"]);
    assert_eq!(built_cd(&mut shell, &mut args), (0, HostAction::ChangeDir("/b".to_string())));
    assert_eq!(shell.env.get_env("OLDPWD"), Some(&"/a".to_string()));
    assert_eq!(
        built_cd_finish(&mut shell, &"/b".to_string(), Some("/b".to_string())),
        (0, HostAction::Nothing)
    );
    assert_eq!(shell.env.get_env("PWD"), Some(&"/b".to_string()));
}

#[test]
fn cd_without_argument_goes_to_tilde() {
    let mut shell = shell_with(&[("PWD", "/a")]);
    let mut args = strings(&["cd"]);
    assert_eq!(built_cd(&mut shell, &mut args), (0, HostAction::ChangeDir("~".to_string())));
    assert_eq!(args, strings(&["cd", "~"]));
}

#[test]
fn cd_failure_is_reported() {
    let mut shell = shell_with(&[("PWD", "/a")]);
    assert_eq!(
        built_cd_finish(&mut shell, &"/nowhere".to_string(), None),
        (1, HostAction::Say("minishell: cd: /nowhere: No such file or directory".to_string()))
    );
    assert_eq!(shell.env.get_env("PWD"), Some(&"/a".to_string()));
}

#[test]
fn cd_with_two_arguments_complains() {
    let mut shell = shell_with(&[("PWD", "/a")]);
    let mut args = strings(&["cd", "x", "y"]);
    assert_eq!(
        built_cd(&mut shell, &mut args),
        (1, HostAction::Complain("minishell: cd: too many arguments".to_string()))
    );
    assert_eq!(shell.env.get_env("OLDPWD"), None);
}
