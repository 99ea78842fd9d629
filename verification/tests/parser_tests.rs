use minishell::commands::ParseTypes;
use minishell::parser::parser;

fn kinds_and_values(line: &str) -> (Vec<(ParseTypes, String)>, i32, i32) {
    let (head, status) = parser(&line.to_string());
    (
        head.tokens.iter().map(|t| (t.parse_type, t.value.clone())).collect(),
        head.n_cmds,
        status,
    )
}

#[test]
fn a_pipeline_with_a_redirection() {
    let (toks, n, status) = kinds_and_values("ls -ls | grep NAME < Makefile\n");
    assert_eq!(status, 0);
    assert_eq!(
        toks,
        vec![
            (ParseTypes::Word, "ls -ls".to_string()),
            (ParseTypes::Pipe, "|".to_string()),
            (ParseTypes::Word, "grep NAME".to_string()),
            (ParseTypes::Redirection, "<".to_string()),
            (ParseTypes::Word, "Makefile".to_string()),
        ]
    );
    assert_eq!(n, 2);
}

#[test]
fn quotes_keep_operators_and_double_operators() {
    let (toks, n, status) = kinds_and_values("echo 'a|b' >> out");
    assert_eq!(status, 0);
    assert_eq!(
        toks,
        vec![
            (ParseTypes::Word, "echo 'a|b'".to_string()),
            (ParseTypes::Redirection, ">>".to_string()),
            (ParseTypes::Word, "out".to_string()),
        ]
    );
    assert_eq!(n, 1);
}

#[test]
fn an_open_quote_is_a_syntax_error() {
    let (toks, n, status) = kinds_and_values("echo \"open\n");
    assert_eq!(status, 2);
    assert!(toks.is_empty());
    assert_eq!(n, 0);
}

#[test]
fn a_blank_line_has_no_tokens() {
    let (toks, n, status) = kinds_and_values("   \n");
    assert_eq!(status, 0);
    assert!(toks.is_empty());
    assert_eq!(n, 0);
}
