use minishell::expand::{is_special, remove_dolar_by_env};
use minishell::shell::Shell;

fn shell_with(pairs: &[(&str, &str)], last_error: i32) -> Shell {
    let mut shell = Shell::new(pairs.iter().map(|(k, v)| (k.to_string(), v.to_string())).collect());
    shell.last_error = last_error;
    shell
}

fn expand(word: &str, shell: &Shell) -> String {
    remove_dolar_by_env(word.to_string(), shell)
}

#[test]
fn word_without_dollar_is_unchanged() {
    let shell = shell_with(&[("HOME", "/root")], 0);
    assert_eq!(expand("hello", &shell), "hello");
    assert_eq!(expand("", &shell), "");
    assert_eq!(expand("a b/c", &shell), "a b/c");
}

#[test]
fn dollar_name_gives_the_value() {
    let shell = shell_with(&[("HOME", "/root")], 0);
    assert_eq!(expand("$HOME", &shell), "/root");
    assert_eq!(expand("x$HOME", &shell), "x/root");
}

#[test]
fn the_name_stops_at_a_special_character() {
    let shell = shell_with(&[("HOME", "/root")], 0);
    assert_eq!(expand("$HOME/x", &shell), "/root/x");
    assert_eq!(expand("$HOME:$HOME", &shell), "/root:/root");
    assert_eq!(expand("$HOME rest", &shell), "/root rest");
}

#[test]
fn unset_name_gives_nothing() {
    let shell = shell_with(&[], 0);
    assert_eq!(expand("$NOPE", &shell), "");
    assert_eq!(expand("ab$NOPE", &shell), "ab");
    assert_eq!(expand("$NOPE x", &shell), " x");
}

#[test]
fn a_dollar_without_a_name_is_removed() {
    let shell = shell_with(&[], 0);
    assert_eq!(expand("a$", &shell), "a");
    assert_eq!(expand("$/x", &shell), "/x");
    assert_eq!(expand("$ x", &shell), " x");
    assert_eq!(expand("$", &shell), "");
    assert_eq!(expand("$$", &shell), "");
    assert_eq!(expand("$'x'", &shell), "'x'");
}

#[test]
fn no_dollar_is_left_when_no_value_holds_one() {
    let shell = shell_with(&[("A", "1"), ("B", "2")], 5);
    for w in ["$A$B", "$?$?", "a$b$c", "$$", "x $A y", "$", "$/$:$?", "$A$"] {
        assert!(!expand(w, &shell).contains('$'), "{:?}", w);
    }
}

#[test]
fn dollar_question_mark_is_the_previous_status() {
    let shell = shell_with(&[], 3);
    assert_eq!(expand("$?", &shell), "3");
    assert_eq!(expand("x$?y", &shell), "x3y");
    let shell = shell_with(&[], -12);
    assert_eq!(expand("$?", &shell), "-12");
    let shell = shell_with(&[], 127);
    assert_eq!(expand("$?$?", &shell), "127127");
}

#[test]
fn references_follow_one_another() {
    let shell = shell_with(&[("A", "1"), ("B", "2")], 5);
    assert_eq!(expand("$A$B", &shell), "12");
    assert_eq!(expand("$A/$B", &shell), "1/2");
    assert_eq!(expand("$A,$B", &shell), "1,2");
}

#[test]
fn a_value_is_not_expanded_again() {
    let shell = shell_with(&[("X", "$X"), ("Y", "$?")], 7);
    assert_eq!(expand("$X", &shell), "$X");
    assert_eq!(expand("$Y", &shell), "$?");
}

#[test]
fn names_may_hold_any_other_character() {
    let shell = shell_with(&[("é", "v"), ("a.b", "w")], 0);
    assert_eq!(expand("$é", &shell), "v");
    assert_eq!(expand("$a.b", &shell), "w");
}

#[test]
fn special_characters_are_those_of_the_class() {
    let special = "!#%^&*()+={}[]|:;\\<>,?/";
    for b in 0x20u8..0x7f {
        let c = b as char;
        assert_eq!(is_special(c), special.contains(c), "{:?}", c);
    }
    assert!(!is_special('é'));
}

#[test]
fn a_special_character_ends_the_name() {
    let shell = shell_with(&[("z", "Z")], 0);
    for c in "!#%^&*()+={}[]|:;\\<>,/".chars() {
        let word = format!("$z{}", c);
        assert_eq!(expand(&word, &shell), format!("Z{}", c), "{:?}", c);
    }
}

#[test]
fn a_quote_ends_the_name() {
    let shell = shell_with(&[("HOME", "/root")], 0);
    assert_eq!(expand("'$HOME'", &shell), "'/root'");
    assert_eq!(expand("$HOME\"", &shell), "/root\"");
}
