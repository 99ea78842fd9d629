use minishell::commands::{ElementLine, ParseTypes};
use minishell::prompt::{host_label, prompt_dir, prompt_user};
use minishell::shell::Shell;

fn shell_with(pairs: &[(&str, &str)]) -> Shell {
    Shell::new(pairs.iter().map(|(k, v)| (k.to_string(), v.to_string())).collect())
}

#[test]
fn a_new_shell_is_empty() {
    let shell = shell_with(&[("A", "1")]);
    assert_eq!(shell.line, "");
    assert_eq!(shell.error, 0);
    assert_eq!(shell.last_error, 0);
    assert_eq!(shell.tokens.n_cmds, 0);
    assert!(shell.tokens.tokens.is_empty());
    assert_eq!(shell.env.get_env("A"), Some(&"1".to_string()));
}

#[test]
fn reset_keeps_the_status_as_the_previous_one() {
    let mut shell = shell_with(&[("A", "1")]);
    shell.line = "ls\n".to_string();
    shell.error = 127;
    shell.tokens.add_token(ElementLine { parse_type: ParseTypes::Word, value: "ls".to_string() });
    shell.reset();
    assert_eq!(shell.line, "");
    assert_eq!(shell.last_error, 127);
    assert_eq!(shell.error, 0);
    assert_eq!(shell.tokens.n_cmds, 0);
    assert!(shell.tokens.tokens.is_empty());
    assert_eq!(shell.env.get_env("A"), Some(&"1".to_string()));
}

#[test]
fn prompt_user_and_host() {
    let shell = shell_with(&[("USER", "ana")]);
    assert_eq!(prompt_user(&shell.env), Some("ana".to_string()));
    let shell = shell_with(&[]);
    assert_eq!(prompt_user(&shell.env), None);
    assert_eq!(host_label(&"box\n".to_string()), "box");
}

#[test]
fn prompt_dir_is_the_last_component() {
    let cases: [(&str, Option<&str>); 8] = [
        ("/home/ana", Some("ana")),
        ("/home/ana/", Some("ana")),
        ("/", None),
        ("a/.", Some("a")),
        ("..", None),
        ("/x/..", None),
        ("./b", Some("b")),
        ("", None),
    ];
    for (pwd, expected) in cases {
        let shell = shell_with(&[("PWD", pwd)]);
        let got = prompt_dir(&shell.env);
        assert_eq!(got, Some(expected.map(|s| s.to_string())), "{:?}", pwd);
        let std_name = std::path::Path::new(pwd).file_name().map(|n| n.to_str().unwrap().to_string());
        assert_eq!(got.unwrap(), std_name, "{:?}", pwd);
    }
    let shell = shell_with(&[]);
    assert_eq!(prompt_dir(&shell.env), None);
}
