use minish::lexer::{lex, Env};
use minish::plan::{plan_pipeline, search_path_candidates, ErrSink, InputSource, OutputSink};
use minish::parser::parse_pipeline;
use minish::subst::{apply_substitutions, substitution_points};

fn plan_str(line: &str) -> minish::plan::SpawnPlan {
    let toks = lex(&line.as_bytes().to_vec(), &Env { entries: Vec::new() }).unwrap();
    let p = parse_pipeline(toks).unwrap();
    let resolved = apply_substitutions(p, &Vec::new());
    plan_pipeline(&resolved, &b"/bin/minish".to_vec())
}

#[test]
fn two_stage_pipeline_shares_one_pipe() {
    let plan = plan_str("producer | consumer");
    assert_eq!(plan.stages.len(), 2);
    assert_eq!(plan.pipe_count, 1);
    assert_eq!(plan.stages[0].stdout, OutputSink::ToPipe(0));
    assert_eq!(plan.stages[1].stdin, InputSource::FromPipe(0));
    assert_eq!(plan.stages[0].stdin, InputSource::Terminal);
    assert_eq!(plan.stages[1].stdout, OutputSink::Terminal);
    assert!(plan.stages[0].leader);
    assert!(!plan.stages[1].leader);
}

#[test]
fn three_stage_pipeline_wires_in_order() {
    let plan = plan_str("a | b | c");
    assert_eq!(plan.pipe_count, 2);
    assert_eq!(plan.stages[0].stdout, OutputSink::ToPipe(0));
    assert_eq!(plan.stages[1].stdin, InputSource::FromPipe(0));
    assert_eq!(plan.stages[1].stdout, OutputSink::ToPipe(1));
    assert_eq!(plan.stages[2].stdin, InputSource::FromPipe(1));
}

#[test]
fn file_redirections_reach_the_plan() {
    let plan = plan_str("cmd < in.txt > out.txt 2> err.txt");
    assert_eq!(plan.stages[0].stdin, InputSource::FromFile(b"in.txt".to_vec()));
    assert_eq!(
        plan.stages[0].stdout,
        OutputSink::ToFile {
            path: b"out.txt".to_vec(),
            append: false
        }
    );
    assert_eq!(plan.stages[0].stderr, ErrSink::ToFile(b"err.txt".to_vec()));
}

#[test]
fn append_redirection_keeps_its_flag() {
    let plan = plan_str("cmd >> out.txt");
    assert_eq!(
        plan.stages[0].stdout,
        OutputSink::ToFile {
            path: b"out.txt".to_vec(),
            append: true
        }
    );
}

#[test]
fn background_flag_reaches_the_plan() {
    let plan = plan_str("sleep 5 &");
    assert!(plan.background);
    let plan = plan_str("sleep 5");
    assert!(!plan.background);
}

#[test]
fn subshell_stage_reinvokes_the_interpreter() {
    let plan = plan_str("( echo hi )");
    assert_eq!(
        plan.stages[0].argv,
        vec![b"/bin/minish".to_vec(), b"-c".to_vec(), b"echo hi".to_vec()]
    );
}

#[test]
fn substitution_points_are_listed_in_order() {
    let toks = lex(
        &b"diff <(ls a) x >(wc)".to_vec(),
        &Env { entries: Vec::new() },
    )
    .unwrap();
    let p = parse_pipeline(toks).unwrap();
    let points = substitution_points(&p);
    assert_eq!(points.len(), 2);
    assert_eq!(points[0].stage, 0);
    assert_eq!(points[0].arg, 1);
    assert!(!points[0].output);
    assert_eq!(points[0].inner, b"ls a".to_vec());
    assert_eq!(points[1].arg, 3);
    assert!(points[1].output);
}

#[test]
fn substitutions_become_fifo_paths_or_literals() {
    let toks = lex(
        &b"diff <(ls) >(wc)".to_vec(),
        &Env { entries: Vec::new() },
    )
    .unwrap();
    let p = parse_pipeline(toks).unwrap();
    let paths = vec![Some(b"/tmp/f0".to_vec()), None];
    let resolved = apply_substitutions(p, &paths);
    let plan = plan_pipeline(&resolved, &b"sh".to_vec());
    assert_eq!(
        plan.stages[0].argv,
        vec![b"diff".to_vec(), b"/tmp/f0".to_vec(), b">(wc)".to_vec()]
    );
}

#[test]
fn path_candidates_follow_path_order() {
    let cands = search_path_candidates(&b"ls".to_vec(), &b"/bin::/usr/bin".to_vec());
    assert_eq!(cands, vec![b"/bin/ls".to_vec(), b"/usr/bin/ls".to_vec()]);
}

#[test]
fn slash_in_command_skips_the_search() {
    let cands = search_path_candidates(&b"./ls".to_vec(), &b"/bin".to_vec());
    assert_eq!(cands, Vec::<Vec<u8>>::new());
}

#[test]
fn empty_path_gives_no_candidates() {
    let cands = search_path_candidates(&b"ls".to_vec(), &b"".to_vec());
    assert_eq!(cands, Vec::<Vec<u8>>::new());
}
