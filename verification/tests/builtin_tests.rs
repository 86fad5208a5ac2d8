use minish::builtins::{
    cd_target_with_home, classify_pipeline, parse_i32, parse_job_ref, BuiltinCmd, CommandClass,
};
use minish::lexer::{lex, Env};
use minish::parser::parse_pipeline;
use minish::token::SyntaxError;

fn classify_str(line: &str) -> Result<CommandClass, SyntaxError> {
    let toks = lex(&line.as_bytes().to_vec(), &Env { entries: Vec::new() }).unwrap();
    let p = parse_pipeline(toks).unwrap();
    classify_pipeline(&p)
}

#[test]
fn external_commands_stay_external() {
    assert_eq!(classify_str("ls -l | wc"), Ok(CommandClass::External));
    assert_eq!(classify_str("echo cd"), Ok(CommandClass::External));
}

#[test]
fn cd_with_and_without_argument() {
    assert_eq!(
        classify_str("cd /tmp"),
        Ok(CommandClass::Builtin(BuiltinCmd::Cd(Some(b"/tmp".to_vec()))))
    );
    assert_eq!(
        classify_str("cd"),
        Ok(CommandClass::Builtin(BuiltinCmd::Cd(None)))
    );
}

#[test]
fn exit_and_quit_codes() {
    assert_eq!(
        classify_str("exit 3"),
        Ok(CommandClass::Builtin(BuiltinCmd::Exit(3)))
    );
    assert_eq!(
        classify_str("quit -5"),
        Ok(CommandClass::Builtin(BuiltinCmd::Exit(-5)))
    );
    assert_eq!(
        classify_str("exit"),
        Ok(CommandClass::Builtin(BuiltinCmd::Exit(0)))
    );
    assert_eq!(
        classify_str("exit nonsense"),
        Ok(CommandClass::Builtin(BuiltinCmd::Exit(0)))
    );
}

#[test]
fn jobs_fg_bg() {
    assert_eq!(classify_str("jobs"), Ok(CommandClass::Builtin(BuiltinCmd::Jobs)));
    assert_eq!(
        classify_str("fg %2"),
        Ok(CommandClass::Builtin(BuiltinCmd::Fg(2)))
    );
    assert_eq!(
        classify_str("bg %10"),
        Ok(CommandClass::Builtin(BuiltinCmd::Bg(10)))
    );
    assert_eq!(classify_str("fg 2"), Err(SyntaxError::BadBuiltinArgument));
    assert_eq!(classify_str("fg"), Err(SyntaxError::BadBuiltinArgument));
}

#[test]
fn builtin_in_pipeline_is_an_error() {
    assert_eq!(classify_str("cd /tmp | wc"), Err(SyntaxError::BuiltinInPipeline));
    assert_eq!(classify_str("ls | cd"), Err(SyntaxError::BuiltinInPipeline));
}

#[test]
fn builtin_with_redirection_is_an_error() {
    assert_eq!(classify_str("cd /tmp > f"), Err(SyntaxError::BuiltinWithRedirect));
    assert_eq!(classify_str("exit < f"), Err(SyntaxError::BuiltinWithRedirect));
}

#[test]
fn parse_i32_exact_bounds() {
    assert_eq!(parse_i32(&b"0".to_vec()), Some(0));
    assert_eq!(parse_i32(&b"130".to_vec()), Some(130));
    assert_eq!(parse_i32(&b"2147483647".to_vec()), Some(2147483647));
    assert_eq!(parse_i32(&b"2147483648".to_vec()), None);
    assert_eq!(parse_i32(&b"-2147483648".to_vec()), Some(-2147483648));
    assert_eq!(parse_i32(&b"-2147483649".to_vec()), None);
    assert_eq!(parse_i32(&b"12x".to_vec()), None);
    assert_eq!(parse_i32(&b"".to_vec()), None);
    assert_eq!(parse_i32(&b"-".to_vec()), None);
    assert_eq!(
        parse_i32(&b"99999999999999999999999999".to_vec()),
        None
    );
}

#[test]
fn job_references_need_the_percent() {
    assert_eq!(parse_job_ref(&b"%1".to_vec()), Some(1));
    assert_eq!(parse_job_ref(&b"%123".to_vec()), Some(123));
    assert_eq!(parse_job_ref(&b"1".to_vec()), None);
    assert_eq!(parse_job_ref(&b"%".to_vec()), None);
    assert_eq!(parse_job_ref(&b"%x".to_vec()), None);
}

#[test]
fn cd_target_prefers_the_argument() {
    assert_eq!(
        cd_target_with_home(Some(b"/tmp".to_vec()), Some(b"/home/u".to_vec())),
        Some(b"/tmp".to_vec())
    );
    assert_eq!(
        cd_target_with_home(None, Some(b"/home/u".to_vec())),
        Some(b"/home/u".to_vec())
    );
    assert_eq!(cd_target_with_home(None, None), None);
}
