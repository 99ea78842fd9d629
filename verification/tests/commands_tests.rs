use minishell::builtins::HostAction;
use minishell::commands::{
    command_not_found, has_arguments, rewire, validade_quote, CommandOutcome, ElementLine, ParseTypes,
    ParsedHead, PipeRewire,
};
use minishell::shell::Shell;

fn shell_with(pairs: &[(&str, &str)]) -> Shell {
    Shell::new(pairs.iter().map(|(k, v)| (k.to_string(), v.to_string())).collect())
}

fn token(kind: ParseTypes, text: &str) -> ElementLine {
    ElementLine { parse_type: kind, value: text.to_string() }
}

fn words(text: &str, shell: &Shell) -> Vec<String> {
    token(ParseTypes::Word, text).split_string(shell)
}

fn strings(v: &[&str]) -> Vec<String> {
    v.iter().map(|s| s.to_string()).collect()
}

#[test]
fn new_token_is_an_empty_end() {
    let t = ElementLine::new();
    assert_eq!(*t.get_type(), ParseTypes::End);
    assert_eq!(t.get_value(), "");
}

#[test]
fn select_type_classifies_operators() {
    let mut t = ElementLine::new();
    t.select_type(&"|".to_string());
    assert_eq!(t.parse_type, ParseTypes::Pipe);
    for op in [">", "<", ">>", "<<"] {
        t.select_type(&op.to_string());
        assert_eq!(t.parse_type, ParseTypes::Redirection);
    }
    for w in ["ls", ">>>", "||", "", "a|b"] {
        t.select_type(&w.to_string());
        assert_eq!(t.parse_type, ParseTypes::Word);
    }
}

#[test]
fn add_value_appends() {
    let mut t = ElementLine::new();
    t.add_value("ls".to_string());
    t.add_value(" -l".to_string());
    assert_eq!(t.get_value(), "ls -l");
    assert_eq!(*t.get_type(), ParseTypes::End);
}

#[test]
fn add_token_counts_commands() {
    let mut head = ParsedHead::new();
    assert_eq!(head.n_cmds, 0);
    head.add_token(token(ParseTypes::Word, "cat"));
    assert_eq!(head.n_cmds, 1);
    head.add_token(token(ParseTypes::Redirection, "<"));
    head.add_token(token(ParseTypes::Word, "file"));
    assert_eq!(head.n_cmds, 1);
    head.add_token(token(ParseTypes::Pipe, "|"));
    head.add_token(token(ParseTypes::Word, "wc"));
    assert_eq!(head.n_cmds, 2);
    assert_eq!(head.tokens.len(), 5);
}

#[test]
fn a_redirection_first_then_a_word_is_no_command() {
    let mut head = ParsedHead::new();
    head.add_token(token(ParseTypes::Redirection, ">"));
    head.add_token(token(ParseTypes::Word, "out"));
    assert_eq!(head.n_cmds, 0);
}

#[test]
fn validade_quote_finds_the_closing_quote() {
    assert_eq!(validade_quote("a'bc'd", &1), (2, true));
    assert_eq!(validade_quote("\"\"", &0), (0, true));
    assert_eq!(validade_quote("'abc", &0), (3, false));
    assert_eq!(validade_quote("'a\"b'", &0), (3, true));
}

#[test]
fn split_string_splits_on_spaces() {
    let shell = shell_with(&[]);
    assert_eq!(words("ls -la /tmp", &shell), strings(&["ls", "-la", "/tmp"]));
    assert_eq!(words("echo", &shell), strings(&["echo"]));
    assert_eq!(words("", &shell), Vec::<String>::new());
}

#[test]
fn spaces_separate_words() {
    let shell = shell_with(&[]);
    assert_eq!(words("a  b", &shell), strings(&["a", "b"]));
    assert_eq!(words(" a ", &shell), strings(&["a"]));
    assert_eq!(words("   ", &shell), Vec::<String>::new());
}

#[test]
fn single_quotes_keep_dollar_and_spaces() {
    let shell = shell_with(&[("HOME", "/root")]);
    assert_eq!(words("echo '$HOME x'", &shell), strings(&["echo", "$HOME x"]));
    assert_eq!(words("'$HOME'", &shell), strings(&["$HOME"]));
    assert_eq!(words("echo '$HOME' x", &shell), strings(&["echo", "$HOME", "x"]));
    assert_eq!(words("''", &shell), Vec::<String>::new());
    assert_eq!(words("a '' b", &shell), strings(&["a", "b"]));
}

#[test]
fn double_quotes_expand() {
    let shell = shell_with(&[("HOME", "/root")]);
    assert_eq!(words("echo \"$HOME\"", &shell), strings(&["echo", "/root"]));
    assert_eq!(words("\"a b\"", &shell), strings(&["a b"]));
    assert_eq!(words("\"$NOPE\"", &shell), strings(&[""]));
    assert_eq!(words("\"'$HOME'\"", &shell), strings(&["'/root'"]));
}

#[test]
fn unquoted_words_expand() {
    let shell = shell_with(&[("HOME", "/root")]);
    assert_eq!(words("echo $HOME", &shell), strings(&["echo", "/root"]));
    assert_eq!(words("echo $HOME ", &shell), strings(&["echo", "/root"]));
    assert_eq!(words("cd $HOME/x", &shell), strings(&["cd", "/root/x"]));
    assert_eq!(words("echo $NOPE x", &shell), strings(&["echo", "", "x"]));
    assert_eq!(words("$NOPE", &shell), strings(&[""]));
}

#[test]
fn parts_of_a_word_join() {
    let shell = shell_with(&[("HOME", "/root")]);
    assert_eq!(words("a'b c'\"$HOME\"d", &shell), strings(&["ab c/rootd"]));
    assert_eq!(words("$HOME'$HOME'", &shell), strings(&["/root$HOME"]));
}

#[test]
fn an_open_quote_runs_to_the_end() {
    let shell = shell_with(&[]);
    assert_eq!(words("echo 'open x", &shell), strings(&["echo", "open x"]));
    assert_eq!(words("échö \"ü", &shell), strings(&["échö", "ü"]));
}

#[test]
fn arguments_are_the_non_empty_words_after_the_command() {
    assert!(!has_arguments(&strings(&["ls"])));
    assert!(!has_arguments(&strings(&["ls", "", ""])));
    assert!(has_arguments(&strings(&["ls", "", "-l"])));
    assert!(!has_arguments(&Vec::new()));
}

#[test]
fn the_pipe_is_rewired_by_outcome() {
    assert_eq!(rewire(CommandOutcome::Builtin, true), PipeRewire::CloseIn);
    assert_eq!(rewire(CommandOutcome::Builtin, false), PipeRewire::ForwardOut);
    assert_eq!(rewire(CommandOutcome::Spawned, true), PipeRewire::CloseBoth);
    assert_eq!(rewire(CommandOutcome::Spawned, false), PipeRewire::ChildOut);
    assert_eq!(rewire(CommandOutcome::NotFound, true), PipeRewire::ForwardOut);
    assert_eq!(rewire(CommandOutcome::NotFound, false), PipeRewire::ForwardOut);
}

#[test]
fn is_builtin_unset_and_export() {
    let mut shell = shell_with(&[("A", "1"), ("B", "2")]);
    let t = ElementLine::new();
    let mut args = strings(&["unset", "A", "C"]);
    let (r, a) = t.is_builtin(&mut shell, "unset".to_string(), &mut args);
    assert_eq!(r, 1);
    assert_eq!(a, HostAction::Nothing);
    assert_eq!(shell.error, 0);
    assert_eq!(shell.env.get_env("A"), None);
    assert_eq!(shell.env.get_env("B"), Some(&"2".to_string()));

    let mut args = strings(&["export", "X=1=2", "Y="]);
    let (r, a) = t.is_builtin(&mut shell, "export".to_string(), &mut args);
    assert_eq!((r, a), (1, HostAction::Nothing));
    assert_eq!(shell.env.get_env("X"), Some(&"1=2".to_string()));
    assert_eq!(shell.env.get_env("Y"), Some(&"".to_string()));
}

#[test]
fn is_builtin_reports_errors() {
    let mut shell = shell_with(&[]);
    let t = ElementLine::new();
    let mut args = strings(&["export", "K=v", "bad", "L=w"]);
    let (r, a) = t.is_builtin(&mut shell, "export".to_string(), &mut args);
    assert_eq!(r, 1);
    assert_eq!(shell.error, 1);
    assert_eq!(a, HostAction::Complain("minishell: export: bad: not a valid identifier".to_string()));
    assert_eq!(shell.env.get_env("K"), Some(&"v".to_string()));
    assert_eq!(shell.env.get_env("L"), None);

    let mut args = strings(&["env", "x"]);
    let (r, a) = t.is_builtin(&mut shell, "env".to_string(), &mut args);
    assert_eq!((r, a), (1, HostAction::Complain("minishell: env: too many arguments".to_string())));
}

#[test]
fn is_builtin_cd_and_exit_and_pwd() {
    let mut shell = shell_with(&[("PWD", "/home")]);
    shell.error = 4;
    let t = ElementLine::new();
    let mut args = strings(&["cd"]);
    let (r, a) = t.is_builtin(&mut shell, "cd".to_string(), &mut args);
    assert_eq!(r, 1);
    assert_eq!(a, HostAction::ChangeDir("~".to_string()));
    assert_eq!(args, strings(&["cd", "~"]));
    assert_eq!(shell.env.get_env("OLDPWD"), Some(&"/home".to_string()));

    let mut args = strings(&["cd", "a", "b"]);
    let (r, a) = t.is_builtin(&mut shell, "cd".to_string(), &mut args);
    assert_eq!((r, a), (1, HostAction::Complain("minishell: cd: too many arguments".to_string())));
    assert_eq!(shell.error, 1);

    let mut args = strings(&["exit", "7"]);
    assert_eq!(t.is_builtin(&mut shell, "exit".to_string(), &mut args), (1, HostAction::Exit(Some(7))));
    let mut args = strings(&["exit", "x"]);
    assert_eq!(t.is_builtin(&mut shell, "exit".to_string(), &mut args), (1, HostAction::Exit(None)));
    shell.error = 9;
    let mut args = strings(&["exit"]);
    assert_eq!(t.is_builtin(&mut shell, "exit".to_string(), &mut args), (1, HostAction::Exit(Some(9))));
    let mut args = strings(&["exit", "1", "2"]);
    assert_eq!(
        t.is_builtin(&mut shell, "exit".to_string(), &mut args),
        (1, HostAction::Complain("minishell: exit: too many arguments".to_string()))
    );

    let mut args = strings(&["pwd"]);
    assert_eq!(t.is_builtin(&mut shell, "pwd".to_string(), &mut args), (1, HostAction::PrintWorkingDir));
    assert_eq!(shell.error, 0);
}

#[test]
fn is_builtin_leaves_other_commands() {
    let mut shell = shell_with(&[("A", "1")]);
    shell.error = 3;
    let t = ElementLine::new();
    let mut args = strings(&["ls", "-l"]);
    assert_eq!(t.is_builtin(&mut shell, "ls".to_string(), &mut args), (0, HostAction::Nothing));
    assert_eq!(shell.error, 3);
    assert_eq!(args, strings(&["ls", "-l"]));
}

#[test]
fn an_unknown_command_sets_127() {
    let mut shell = shell_with(&[]);
    let m = command_not_found(&mut shell, &"nope".to_string());
    assert_eq!(m, "minishell: nope: command not found");
    assert_eq!(shell.error, 127);
}
