use minish::lexer::{lex, Env};
use minish::parser::{parse_pipeline, split_commands, Arg, Pipeline, StageCmd};
use minish::token::SyntaxError;

fn parse_str(line: &str) -> Result<Pipeline, SyntaxError> {
    let toks = lex(&line.as_bytes().to_vec(), &Env { entries: Vec::new() }).unwrap();
    parse_pipeline(toks)
}

fn argv_of(p: &Pipeline, i: usize) -> Vec<Vec<u8>> {
    match &p.stages[i].cmd {
        StageCmd::Run(args) => args
            .iter()
            .map(|a| match a {
                Arg::Plain(w) => w.clone(),
                Arg::Sub { .. } => panic!("unresolved substitution"),
            })
            .collect(),
        StageCmd::Subshell(_) => panic!("subshell stage"),
    }
}

#[test]
fn quoted_argument_boundaries_round_trip() {
    let p = parse_str("echo 'a b' c").unwrap();
    assert_eq!(p.stages.len(), 1);
    assert_eq!(
        argv_of(&p, 0),
        vec![b"echo".to_vec(), b"a b".to_vec(), b"c".to_vec()]
    );
    assert!(!p.background);
}

#[test]
fn three_stages_and_their_redirection_rules() {
    let p = parse_str("a | b | c").unwrap();
    assert_eq!(p.stages.len(), 3);
    for i in 0..3 {
        assert!(p.stages[i].stdout_file.is_none());
        assert!(p.stages[i].stdin_file.is_none());
    }
    assert_eq!(argv_of(&p, 0), vec![b"a".to_vec()]);
    assert_eq!(argv_of(&p, 1), vec![b"b".to_vec()]);
    assert_eq!(argv_of(&p, 2), vec![b"c".to_vec()]);
}

#[test]
fn stdout_redirect_on_intermediate_stage_is_rejected() {
    assert_eq!(parse_str("a > f | b"), Err(SyntaxError::StdoutNotLast));
}

#[test]
fn stdout_redirect_on_last_stage_is_accepted() {
    let p = parse_str("a | b > f").unwrap();
    assert_eq!(
        p.stages[1].stdout_file,
        Some((b"f".to_vec(), false))
    );
}

#[test]
fn stdin_redirect_off_first_stage_is_rejected() {
    assert_eq!(parse_str("a | b < f"), Err(SyntaxError::StdinNotFirst));
}

#[test]
fn truncate_and_append_are_distinguished() {
    let p = parse_str("cmd > out.txt").unwrap();
    assert_eq!(
        p.stages[0].stdout_file,
        Some((b"out.txt".to_vec(), false))
    );
    let p = parse_str("cmd >> out.txt").unwrap();
    assert_eq!(
        p.stages[0].stdout_file,
        Some((b"out.txt".to_vec(), true))
    );
}

#[test]
fn stderr_and_stdin_redirects_parse() {
    let p = parse_str("cmd < in.txt 2> err.txt").unwrap();
    assert_eq!(p.stages[0].stdin_file, Some(b"in.txt".to_vec()));
    assert_eq!(p.stages[0].stderr_file, Some(b"err.txt".to_vec()));
}

#[test]
fn duplicate_redirect_is_rejected() {
    assert_eq!(
        parse_str("cmd > a > b"),
        Err(SyntaxError::DuplicateRedirect)
    );
}

#[test]
fn missing_redirect_target_is_rejected() {
    assert_eq!(
        parse_str("cmd >"),
        Err(SyntaxError::MissingRedirectTarget)
    );
    assert_eq!(
        parse_str("cmd > | b"),
        Err(SyntaxError::MissingRedirectTarget)
    );
}

#[test]
fn dangling_pipes_are_rejected() {
    assert_eq!(parse_str("a |"), Err(SyntaxError::DanglingPipe));
    assert_eq!(parse_str("| a"), Err(SyntaxError::DanglingPipe));
    assert_eq!(parse_str("a | | b"), Err(SyntaxError::DanglingPipe));
}

#[test]
fn empty_line_is_empty_command() {
    assert_eq!(parse_str(""), Err(SyntaxError::EmptyCommand));
    assert_eq!(parse_str("   "), Err(SyntaxError::EmptyCommand));
}

#[test]
fn redirect_only_stage_is_empty_command() {
    assert_eq!(parse_str("> f"), Err(SyntaxError::EmptyCommand));
}

#[test]
fn trailing_ampersand_marks_background() {
    let p = parse_str("sleep 5 &").unwrap();
    assert!(p.background);
    assert_eq!(p.stages.len(), 1);
    assert_eq!(argv_of(&p, 0), vec![b"sleep".to_vec(), b"5".to_vec()]);
}

#[test]
fn ampersand_not_at_end_is_rejected() {
    assert_eq!(parse_str("a & b"), Err(SyntaxError::BackgroundNotLast));
}

#[test]
fn whole_paren_group_becomes_subshell() {
    let p = parse_str("( echo hi )").unwrap();
    assert_eq!(p.stages.len(), 1);
    match &p.stages[0].cmd {
        StageCmd::Subshell(script) => assert_eq!(script, &b"echo hi".to_vec()),
        StageCmd::Run(_) => panic!("expected a subshell stage"),
    }
}

#[test]
fn subshell_keeps_operators_in_script() {
    let p = parse_str("( a b > f )").unwrap();
    match &p.stages[0].cmd {
        StageCmd::Subshell(script) => assert_eq!(script, &b"a b > f".to_vec()),
        StageCmd::Run(_) => panic!("expected a subshell stage"),
    }
}

#[test]
fn pipe_inside_parens_is_rejected() {
    // Groups are split on pipes first, so a pipe splits the paren form
    // across two stages and the parentheses become strays.
    assert_eq!(parse_str("( a | b )"), Err(SyntaxError::StrayParen));
}

#[test]
fn stray_paren_is_rejected() {
    assert_eq!(parse_str("a ( b"), Err(SyntaxError::StrayParen));
    assert_eq!(parse_str("a )"), Err(SyntaxError::StrayParen));
}

#[test]
fn semicolon_splits_into_independent_commands() {
    let toks = lex(
        &b"false ; echo next".to_vec(),
        &Env { entries: Vec::new() },
    )
    .unwrap();
    let segments = split_commands(toks);
    assert_eq!(segments.len(), 2);
    let mut it = segments.into_iter();
    let first = parse_pipeline(it.next().unwrap()).unwrap();
    let second = parse_pipeline(it.next().unwrap()).unwrap();
    assert_eq!(argv_of(&first, 0), vec![b"false".to_vec()]);
    assert_eq!(
        argv_of(&second, 0),
        vec![b"echo".to_vec(), b"next".to_vec()]
    );
}

#[test]
fn empty_segments_between_semicolons_are_dropped() {
    let toks = lex(&b"; a ;; b ;".to_vec(), &Env { entries: Vec::new() }).unwrap();
    let segments = split_commands(toks);
    assert_eq!(segments.len(), 2);
}
