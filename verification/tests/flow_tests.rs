//! End-to-end runs through the library's whole front half: continuation
//! joining, lexing, command splitting, parsing, classification and planning,
//! the way a driver strings them together.

use minish::builtins::{classify_pipeline, CommandClass};
use minish::lexer::{lex, Env};
use minish::lines::append_line;
use minish::parser::{parse_pipeline, split_commands};
use minish::plan::{plan_pipeline, InputSource, OutputSink};
use minish::subst::apply_substitutions;

fn env_with(pairs: &[(&str, &str)]) -> Env {
    Env {
        entries: pairs
            .iter()
            .map(|(k, v)| (k.as_bytes().to_vec(), v.as_bytes().to_vec()))
            .collect(),
    }
}

#[test]
fn continued_line_flows_into_a_planned_pipeline() {
    let (acc, cont) = append_line(Vec::new(), &b"cat < in.txt |\\".to_vec());
    assert!(cont);
    let (acc, cont) = append_line(acc, &b"sort > out.txt".to_vec());
    assert!(!cont);
    assert_eq!(acc, b"cat < in.txt |sort > out.txt".to_vec());

    let tokens = lex(&acc, &env_with(&[])).unwrap();
    let segments = split_commands(tokens);
    assert_eq!(segments.len(), 1);
    let pipeline = parse_pipeline(segments.into_iter().next().unwrap()).unwrap();
    assert_eq!(classify_pipeline(&pipeline), Ok(CommandClass::External));
    let resolved = apply_substitutions(pipeline, &Vec::new());
    let plan = plan_pipeline(&resolved, &b"minish".to_vec());
    assert_eq!(plan.stages.len(), 2);
    assert_eq!(plan.stages[0].stdin, InputSource::FromFile(b"in.txt".to_vec()));
    assert_eq!(plan.stages[0].stdout, OutputSink::ToPipe(0));
    assert_eq!(plan.stages[1].stdin, InputSource::FromPipe(0));
    assert_eq!(
        plan.stages[1].stdout,
        OutputSink::ToFile {
            path: b"out.txt".to_vec(),
            append: false
        }
    );
}

#[test]
fn expansion_feeds_word_boundaries_but_never_splits() {
    let tokens = lex(
        &b"echo $GREETING".to_vec(),
        &env_with(&[("GREETING", "hello world")]),
    )
    .unwrap();
    let pipeline = parse_pipeline(tokens).unwrap();
    match &pipeline.stages[0].cmd {
        minish::parser::StageCmd::Run(args) => {
            // The expanded value stays one argument, spaces and all.
            assert_eq!(args.len(), 2);
            match &args[1] {
                minish::parser::Arg::Plain(w) => assert_eq!(w, &b"hello world".to_vec()),
                _ => panic!("expected a plain word"),
            }
        }
        _ => panic!("expected a run stage"),
    }
}

#[test]
fn unterminated_brace_takes_the_rest_as_the_name() {
    let tokens = lex(&b"echo ${X".to_vec(), &env_with(&[("X", "v")])).unwrap();
    let pipeline = parse_pipeline(tokens).unwrap();
    match &pipeline.stages[0].cmd {
        minish::parser::StageCmd::Run(args) => match &args[1] {
            minish::parser::Arg::Plain(w) => assert_eq!(w, &b"v".to_vec()),
            _ => panic!("expected a plain word"),
        },
        _ => panic!("expected a run stage"),
    }
}
