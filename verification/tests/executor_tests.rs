use minishell::commands::{ElementLine, ParseTypes};
use minishell::executor::{
    pipeline_first, pipeline_step, plan_execute_pipes, redirect_kind, redirect_target, segment_end,
    segment_failed, PipelineStep, Redirect, SegmentPlan,
};
use minishell::shell::Shell;

fn shell_with(pairs: &[(&str, &str)]) -> Shell {
    Shell::new(pairs.iter().map(|(k, v)| (k.to_string(), v.to_string())).collect())
}

fn token(kind: ParseTypes, text: &str) -> ElementLine {
    ElementLine { parse_type: kind, value: text.to_string() }
}

fn plan(tokens: &[ElementLine], shell: &Shell) -> SegmentPlan {
    match plan_execute_pipes(tokens, shell) {
        Some(p) => p,
        None => panic!("no plan"),
    }
}

#[test]
fn a_plain_command_runs_alone() {
    let shell = shell_with(&[]);
    let t = vec![token(ParseTypes::Word, "ls -l")];
    let p = plan(&t, &shell);
    assert!(p.redirections.is_empty());
    assert_eq!(p.words, vec![0]);
    assert_eq!(p.first_redirection, None);
    assert_eq!(p.stop, 1);
}

#[test]
fn the_segment_stops_at_a_pipe() {
    let shell = shell_with(&[]);
    let t = vec![
        token(ParseTypes::Word, "ls"),
        token(ParseTypes::Pipe, "|"),
        token(ParseTypes::Word, "wc"),
    ];
    let p = plan(&t, &shell);
    assert_eq!(p.words, vec![0]);
    assert_eq!(p.stop, 1);
    assert_eq!(segment_end(&p, false), 1);
}

#[test]
fn redirections_open_before_the_command_runs() {
    let shell = shell_with(&[("F", "x")]);
    let t = vec![
        token(ParseTypes::Word, "cat"),
        token(ParseTypes::Redirection, "<"),
        token(ParseTypes::Word, "  \"in.txt\" "),
        token(ParseTypes::Redirection, ">"),
        token(ParseTypes::Word, "'$F'"),
        token(ParseTypes::Redirection, "<<"),
        token(ParseTypes::Word, "$?"),
    ];
    let p = plan(&t, &shell);
    assert_eq!(
        p.redirections,
        vec![
            (Redirect::Read, "in.txt".to_string()),
            (Redirect::Write, "'$F'".to_string()),
            (Redirect::Heredoc, "0".to_string()),
        ]
    );
    assert_eq!(p.words, vec![0]);
    assert_eq!(p.first_redirection, Some(1));
    assert_eq!(p.stop, 7);
}

#[test]
fn words_run_last_first() {
    let shell = shell_with(&[]);
    let t = vec![token(ParseTypes::Word, "a"), token(ParseTypes::Word, "b")];
    let p = plan(&t, &shell);
    assert_eq!(p.words, vec![1, 0]);
}

#[test]
fn the_last_file_opened_decides_the_error() {
    let shell = shell_with(&[]);
    let t = vec![
        token(ParseTypes::Redirection, "<"),
        token(ParseTypes::Word, "a"),
        token(ParseTypes::Redirection, ">"),
        token(ParseTypes::Word, "b"),
        token(ParseTypes::Redirection, "<<"),
        token(ParseTypes::Word, "EOF"),
        token(ParseTypes::Word, "cat"),
    ];
    let p = plan(&t, &shell);
    assert!(!segment_failed(&p, &vec![true, false, true]));
    assert!(segment_failed(&p, &vec![false, true, false]));
    assert_eq!(segment_end(&p, true), 0);
    assert_eq!(segment_end(&p, false), 7);
}

#[test]
fn a_redirection_without_file_fails() {
    let shell = shell_with(&[]);
    let t = vec![token(ParseTypes::Word, "ls"), token(ParseTypes::Redirection, ">")];
    assert!(plan_execute_pipes(&t, &shell).is_none());
}

#[test]
fn redirect_kinds() {
    assert_eq!(redirect_kind(&">".to_string()), Redirect::Write);
    assert_eq!(redirect_kind(&"<".to_string()), Redirect::Read);
    assert_eq!(redirect_kind(&">>".to_string()), Redirect::Append);
    assert_eq!(redirect_kind(&"<<".to_string()), Redirect::Heredoc);
    assert_eq!(redirect_kind(&"<>".to_string()), Redirect::Ignored);
}

#[test]
fn file_names_are_stripped_and_expanded() {
    let shell = shell_with(&[("HOME", "/root")]);
    assert_eq!(redirect_target(&" \"$HOME/out\" ".to_string(), &shell), "/root/out");
    assert_eq!(redirect_target(&"'$HOME'".to_string(), &shell), "'$HOME'");
    assert_eq!(redirect_target(&"$NOPE".to_string(), &shell), "");
    assert_eq!(redirect_target(&"plain.txt".to_string(), &shell), "plain.txt");
}

#[test]
fn the_first_segment_is_piped_unless_alone() {
    assert_eq!(pipeline_first(0), PipelineStep::Stop);
    assert_eq!(pipeline_first(1), PipelineStep::Run { start: 0, piped_out: false });
    assert_eq!(pipeline_first(3), PipelineStep::Run { start: 0, piped_out: true });
}

#[test]
fn the_next_segment_starts_after_the_end_of_the_last() {
    // `ls | grep a | wc`: segments of 2, 2 and 1 tokens
    assert_eq!(pipeline_step(3, 0, 0, 1), PipelineStep::Run { start: 2, piped_out: true });
    assert_eq!(pipeline_step(3, 1, 2, 1), PipelineStep::Run { start: 4, piped_out: false });
    assert_eq!(pipeline_step(3, 2, 4, 1), PipelineStep::Stop);
    assert_eq!(pipeline_step(1, 0, 0, 5), PipelineStep::Stop);
}
