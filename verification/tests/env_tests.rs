use minishell::env::{any_found, Env};

fn vars(pairs: &[(&str, &str)]) -> Vec<(String, String)> {
    pairs.iter().map(|(k, v)| (k.to_string(), v.to_string())).collect()
}

#[test]
fn set_then_get_gives_the_value() {
    let mut env = Env::new(vars(&[("HOME", "/root")]));
    env.set_env("X".to_string(), "1".to_string());
    assert_eq!(env.get_env("X"), Some(&"1".to_string()));
    assert_eq!(env.get_env("HOME"), Some(&"/root".to_string()));
}

#[test]
fn set_replaces_the_old_value() {
    let mut env = Env::new(vars(&[("X", "a")]));
    env.set_env("X".to_string(), "b".to_string());
    assert_eq!(env.get_env("X"), Some(&"b".to_string()));
    assert_eq!(env.get_all().len(), 1);
}

#[test]
fn remove_then_get_gives_nothing() {
    let mut env = Env::new(vars(&[("X", "a"), ("Y", "b")]));
    env.remove_env("X".to_string());
    assert_eq!(env.get_env("X"), None);
    assert_eq!(env.get_env("Y"), Some(&"b".to_string()));
    env.remove_env("missing".to_string());
    assert_eq!(env.get_all().len(), 1);
}

#[test]
fn new_keeps_the_later_duplicate() {
    let env = Env::new(vars(&[("X", "a"), ("X", "b")]));
    assert_eq!(env.get_env("X"), Some(&"b".to_string()));
    assert_eq!(env.get_all(), vec![("X".to_string(), "b".to_string())]);
}

#[test]
fn get_all_lists_every_variable_once() {
    let mut env = Env::new(vars(&[("A", "1"), ("B", "2")]));
    env.set_env("C".to_string(), "3".to_string());
    env.set_env("A".to_string(), "4".to_string());
    let mut all = env.get_all();
    all.sort();
    assert_eq!(
        all,
        vec![
            ("A".to_string(), "4".to_string()),
            ("B".to_string(), "2".to_string()),
            ("C".to_string(), "3".to_string())
        ]
    );
}

#[test]
fn path_candidates_join_each_directory() {
    let c = minishell::env::path_candidates("/bin:/usr/bin::x", "ls");
    assert_eq!(c, vec!["/bin/ls", "/usr/bin/ls", "/ls", "x/ls"]);
    let c = minishell::env::path_candidates("", "ls");
    assert_eq!(c, vec!["/ls"]);
}

#[test]
fn path_validation_finds_sh_in_bin() {
    let env = Env::new(vars(&[("PATH", "/nonexistent:/bin:/usr/bin")]));
    assert!(env.path_validation("sh"));
    assert!(!env.path_validation("surely-no-such-command-here"));
}

#[test]
fn any_found_tells_whether_one_answer_is_true() {
    assert!(!any_found(&vec![]));
    assert!(!any_found(&vec![false, false]));
    assert!(any_found(&vec![false, true]));
    assert!(any_found(&vec![true]));
}

#[test]
fn a_history_of_changes_reads_as_its_last_change() {
    let mut env = Env::new(vars(&[("A", "0")]));
    env.set_env("A".to_string(), "1".to_string());
    env.remove_env("A".to_string());
    env.set_env("B".to_string(), "2".to_string());
    env.set_env("A".to_string(), "3".to_string());
    env.remove_env("B".to_string());
    env.set_env("C".to_string(), "4".to_string());
    assert_eq!(env.get_env("A"), Some(&"3".to_string()));
    assert_eq!(env.get_env("B"), None);
    assert_eq!(env.get_env("C"), Some(&"4".to_string()));
    assert_eq!(env.get_all().len(), 2);
}

#[test]
fn path_validation_misses_an_unknown_command() {
    let env = Env::new(vars(&[("PATH", "/nonexistent-dir:/also-missing")]));
    assert!(!env.path_validation("sh"));
}

#[test]
fn path_search_asks_each_directory_in_order() {
    let env = Env::new(vars(&[("PATH", "/a:/b:/c")]));
    assert!(env.path_search("ls", |p: &str| p == "/b/ls"));
    assert!(!env.path_search("ls", |p: &str| p == "/d/ls"));
    assert!(!env.path_search("ls", |p: &str| p == "/b"));
    let asked = std::cell::RefCell::new(Vec::new());
    assert!(env.path_search("ls", |p: &str| {
        asked.borrow_mut().push(p.to_string());
        p == "/b/ls"
    }));
    assert_eq!(*asked.borrow(), vec!["/a/ls".to_string(), "/b/ls".to_string()]);
}
