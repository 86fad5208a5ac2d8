//! The pipeline builder's plan: which file, pipe or terminal each stage's
//! three streams bind to, and which process group each stage joins.
//!
//! The plan is pure data.  The driver walks it in stage order: it creates one
//! OS pipe per [`SpawnPlan::pipe_count`], opens the named files, spawns each
//! stage with the streams the plan names, makes the first stage the leader of
//! a fresh process group and puts every later stage into that same group.

use vstd::prelude::*;

use crate::parser::{Arg, ArgModel, Pipeline, PipelineModel, StageCmd, StageCmdModel, StageModel};

verus! {

/// Where a stage's stdin comes from.  `FromPipe(k)` is the read end of the
/// pipe between stages `k` and `k + 1`.
#[derive(PartialEq, Eq, Debug)]
pub enum InputSource {
    Terminal,
    FromFile(Vec<u8>),
    FromPipe(usize),
}

/// The model of an input source.
pub enum InputSourceModel {
    Terminal,
    FromFile(Seq<u8>),
    FromPipe(int),
}

impl View for InputSource {
    type V = InputSourceModel;

    open spec fn view(&self) -> InputSourceModel {
        match self {
            InputSource::Terminal => InputSourceModel::Terminal,
            InputSource::FromFile(p) => InputSourceModel::FromFile(p@),
            InputSource::FromPipe(k) => InputSourceModel::FromPipe(*k as int),
        }
    }
}

/// Where a stage's stdout goes.  `ToPipe(k)` is the write end of the pipe
/// between stages `k` and `k + 1`; `ToFile` truncates unless `append`.
#[derive(PartialEq, Eq, Debug)]
pub enum OutputSink {
    Terminal,
    ToFile { path: Vec<u8>, append: bool },
    ToPipe(usize),
}

/// The model of an output sink.
pub enum OutputSinkModel {
    Terminal,
    ToFile { path: Seq<u8>, append: bool },
    ToPipe(int),
}

impl View for OutputSink {
    type V = OutputSinkModel;

    open spec fn view(&self) -> OutputSinkModel {
        match self {
            OutputSink::Terminal => OutputSinkModel::Terminal,
            OutputSink::ToFile { path, append } => OutputSinkModel::ToFile {
                path: path@,
                append: *append,
            },
            OutputSink::ToPipe(k) => OutputSinkModel::ToPipe(*k as int),
        }
    }
}

/// Where a stage's stderr goes.
#[derive(PartialEq, Eq, Debug)]
pub enum ErrSink {
    Terminal,
    ToFile(Vec<u8>),
}

/// The model of a stderr sink.
pub enum ErrSinkModel {
    Terminal,
    ToFile(Seq<u8>),
}

impl View for ErrSink {
    type V = ErrSinkModel;

    open spec fn view(&self) -> ErrSinkModel {
        match self {
            ErrSink::Terminal => ErrSinkModel::Terminal,
            ErrSink::ToFile(p) => ErrSinkModel::ToFile(p@),
        }
    }
}

/// The model of a list of byte vectors.
pub open spec fn bytes_list_view(s: Seq<Vec<u8>>) -> Seq<Seq<u8>> {
    s.map_values(|v: Vec<u8>| v@)
}

pub broadcast proof fn lemma_bytes_list_view_len(s: Seq<Vec<u8>>)
    ensures
        #[trigger] bytes_list_view(s).len() == s.len(),
{
}

pub broadcast proof fn lemma_bytes_list_view_index(s: Seq<Vec<u8>>, i: int)
    requires
        0 <= i < s.len(),
    ensures
        #[trigger] bytes_list_view(s)[i] == s[i]@,
{
}

/// One stage of the plan: the final argument vector (program name first) and
/// the three stream bindings.  `leader` marks the stage whose process id
/// becomes the pipeline's process-group id; every other stage joins it.
pub struct StagePlan {
    pub argv: Vec<Vec<u8>>,
    pub stdin: InputSource,
    pub stdout: OutputSink,
    pub stderr: ErrSink,
    pub leader: bool,
}

/// The model of a stage plan.
pub struct StagePlanModel {
    pub argv: Seq<Seq<u8>>,
    pub stdin: InputSourceModel,
    pub stdout: OutputSinkModel,
    pub stderr: ErrSinkModel,
    pub leader: bool,
}

impl View for StagePlan {
    type V = StagePlanModel;

    open spec fn view(&self) -> StagePlanModel {
        StagePlanModel {
            argv: bytes_list_view(self.argv@),
            stdin: self.stdin@,
            stdout: self.stdout@,
            stderr: self.stderr@,
            leader: self.leader,
        }
    }
}

/// The whole plan: one [`StagePlan`] per stage, the number of pipes to
/// allocate, and the pipeline's disposition.
pub struct SpawnPlan {
    pub stages: Vec<StagePlan>,
    pub pipe_count: usize,
    pub background: bool,
}

/// A pipeline is resolved once no argument is a pending process
/// substitution: every argument of every run stage is a plain word.
pub open spec fn resolved(p: PipelineModel) -> bool {
    forall|i: int|
        0 <= i < p.stages.len() ==> match (#[trigger] p.stages[i]).cmd {
            StageCmdModel::Run(args) => forall|j: int|
                0 <= j < args.len() ==> (#[trigger] args[j]) is Plain,
            StageCmdModel::Subshell(_) => true,
        }
}

/// The bytes of one resolved argument.
pub open spec fn arg_bytes(a: ArgModel) -> Seq<u8> {
    match a {
        ArgModel::Plain(w) => w,
        ArgModel::Sub { output, inner } => Seq::empty(),
    }
}

/// The literal `-c` flag that hands a subshell its one-shot script.
pub open spec fn dash_c() -> Seq<u8> {
    seq![45u8, 99u8]
}

/// The argument vector a stage is spawned with: its own resolved words, or,
/// for a subshell, this interpreter re-invoked on the inner text.
pub open spec fn stage_argv_model(s: StageModel, self_exe: Seq<u8>) -> Seq<Seq<u8>> {
    match s.cmd {
        StageCmdModel::Run(args) => args.map_values(|a: ArgModel| arg_bytes(a)),
        StageCmdModel::Subshell(script) => seq![self_exe, dash_c(), script],
    }
}

/// The planned bindings of stage `i`, exactly as the builder's contract
/// states them: stdin is the previous stage's pipe unless the stage is
/// first, then its stdin file if any, else the terminal; stdout is the next
/// pipe unless the stage is last, then its stdout file if any, else the
/// terminal; stderr is its stderr file if any, else the terminal; the first
/// stage leads the process group.
pub open spec fn stage_plan_model(p: PipelineModel, i: int, self_exe: Seq<u8>) -> StagePlanModel {
    StagePlanModel {
        argv: stage_argv_model(p.stages[i], self_exe),
        stdin: if i > 0 {
            InputSourceModel::FromPipe(i - 1)
        } else {
            match p.stages[i].stdin_file {
                Option::Some(path) => InputSourceModel::FromFile(path),
                Option::None => InputSourceModel::Terminal,
            }
        },
        stdout: if i < p.stages.len() - 1 {
            OutputSinkModel::ToPipe(i)
        } else {
            match p.stages[i].stdout_file {
                Option::Some((path, append)) => OutputSinkModel::ToFile { path, append },
                Option::None => OutputSinkModel::Terminal,
            }
        },
        stderr: match p.stages[i].stderr_file {
            Option::Some(path) => ErrSinkModel::ToFile(path),
            Option::None => ErrSinkModel::Terminal,
        },
        leader: i == 0,
    }
}

/// The contents a stdout file holds after a run that wrote `produced`, given
/// what it held before: an append sink keeps the old bytes, a truncating
/// sink discards them.  The driver realizes this by opening the file with
/// create+append or create+truncate as the flag says.
pub open spec fn redirected_file_contents(
    existing: Seq<u8>,
    produced: Seq<u8>,
    append: bool,
) -> Seq<u8> {
    if append {
        existing + produced
    } else {
        produced
    }
}

/// Appending never loses the old bytes: the file grows by exactly what the
/// run wrote, and strictly grows whenever anything was written.
pub proof fn lemma_append_extends(existing: Seq<u8>, produced: Seq<u8>)
    ensures
        redirected_file_contents(existing, produced, true).len() == existing.len()
            + produced.len(),
        produced.len() > 0 ==> redirected_file_contents(existing, produced, true).len()
            > existing.len(),
        redirected_file_contents(existing, produced, true).take(existing.len() as int)
            == existing,
{
    assert(redirected_file_contents(existing, produced, true).take(existing.len() as int)
        =~= existing);
}

/// Adjacent stages are wired to the same pipe: stage `i` writes pipe `i` and
/// stage `i + 1` reads it, for every `i` before the last stage.  Byte
/// conservation across that boundary is then the OS pipe's to keep: every
/// byte the producer writes to the write end is what the consumer reads from
/// the read end.
pub proof fn lemma_pipe_wiring(p: PipelineModel, i: int, self_exe: Seq<u8>)
    requires
        0 <= i < p.stages.len() - 1,
    ensures
        stage_plan_model(p, i, self_exe).stdout == OutputSinkModel::ToPipe(i),
        stage_plan_model(p, i + 1, self_exe).stdin == InputSourceModel::FromPipe(i),
{
}

/// Whether `b` occurs in `s`.
pub open spec fn contains_byte(s: Seq<u8>, b: u8) -> bool {
    exists|i: int| 0 <= i < s.len() && s[i] == b
}

/// A `PATH`-style value split on colons, empty runs included.
pub open spec fn split_colon(s: Seq<u8>) -> Seq<Seq<u8>>
    decreases s.len(),
{
    if s.len() == 0 {
        seq![Seq::<u8>::empty()]
    } else if s[0] == 58 {
        seq![Seq::<u8>::empty()] + split_colon(s.drop_first())
    } else {
        let r = split_colon(s.drop_first());
        seq![seq![s[0]] + r[0]] + r.drop_first()
    }
}

pub proof fn lemma_split_colon_len(s: Seq<u8>)
    ensures
        split_colon(s).len() >= 1,
    decreases s.len(),
{
    if s.len() == 0 {
    } else {
        lemma_split_colon_len(s.drop_first());
    }
}

/// One candidate path per non-empty directory, in order: `dir/cmd`.
pub open spec fn candidates_in(dirs: Seq<Seq<u8>>, cmd: Seq<u8>) -> Seq<Seq<u8>>
    decreases dirs.len(),
{
    if dirs.len() == 0 {
        Seq::empty()
    } else if dirs[0].len() == 0 {
        candidates_in(dirs.drop_first(), cmd)
    } else {
        seq![dirs[0] + seq![47u8] + cmd] + candidates_in(dirs.drop_first(), cmd)
    }
}

/// What [`search_path_candidates`] returns: nothing for a name that already
/// carries a path separator (it is used as given), else one candidate per
/// non-empty `PATH` directory, in `PATH` order.
pub open spec fn path_candidates(cmd: Seq<u8>, path_var: Seq<u8>) -> Seq<Seq<u8>> {
    if contains_byte(cmd, 47) {
        Seq::empty()
    } else {
        candidates_in(split_colon(path_var), cmd)
    }
}

/// The candidate files where a command name may resolve, in search order.
/// The driver runs the name through these and spawns the first that is an
/// executable file; a name with a `/` is used as given.
pub fn search_path_candidates(cmd: &Vec<u8>, path_var: &Vec<u8>) -> (r: Vec<Vec<u8>>)
    ensures
        bytes_list_view(r@) == path_candidates(cmd@, path_var@),
{
    broadcast use lemma_bytes_list_view_len, lemma_bytes_list_view_index;

    let mut i: usize = 0;
    while i < cmd.len()
        invariant
            i <= cmd.len(),
            forall|k: int| 0 <= k < i ==> cmd@[k] != 47,
        decreases cmd.len() - i,
    {
        if cmd[i] == 47 {
            let r: Vec<Vec<u8>> = Vec::new();
            proof {
                assert(contains_byte(cmd@, 47));
                assert(bytes_list_view(r@) =~= Seq::<Seq<u8>>::empty());
            }
            return r;
        }
        i += 1;
    }
    proof {
        assert(!contains_byte(cmd@, 47));
    }
    let mut done: Vec<Vec<u8>> = Vec::new();
    let mut cur: Vec<u8> = Vec::new();
    let mut j: usize = 0;
    proof {
        lemma_split_colon_len(path_var@);
        assert(path_var@.skip(0) =~= path_var@);
        assert(seq![Seq::<u8>::empty() + split_colon(path_var@)[0]] + split_colon(
            path_var@,
        ).drop_first() =~= split_colon(path_var@));
        assert(bytes_list_view(done@) =~= Seq::<Seq<u8>>::empty());
    }
    while j < path_var.len()
        invariant
            j <= path_var.len(),
            candidates_in(split_colon(path_var@), cmd@) == bytes_list_view(done@)
                + candidates_in(
                seq![cur@ + split_colon(path_var@.skip(j as int))[0]] + split_colon(
                    path_var@.skip(j as int),
                ).drop_first(),
                cmd@,
            ),
        decreases path_var.len() - j,
    {
        let ghost rem = path_var@.skip(j as int);
        let ghost curv = cur@;
        let ghost donev = bytes_list_view(done@);
        let b = path_var[j];
        proof {
            assert(rem[0] == path_var@[j as int]);
            assert(rem.drop_first() =~= path_var@.skip(j as int + 1));
            lemma_split_colon_len(rem.drop_first());
        }
        if b == 58 {
            if cur.len() > 0 {
                let mut cand = cur;
                cur = Vec::new();
                cand.push(47);
                crate::lexer::push_all(&mut cand, cmd);
                let ghost candv = cand@;
                done.push(cand);
                proof {
                    assert(candv =~= curv + seq![47u8] + cmd@);
                    assert(bytes_list_view(done@) =~= donev.push(candv));
                }
            }
            proof {
                let s = split_colon(rem.drop_first());
                assert(split_colon(rem) =~= seq![Seq::<u8>::empty()] + s);
                assert(curv + split_colon(rem)[0] =~= curv);
                assert(seq![curv + split_colon(rem)[0]] + split_colon(rem).drop_first() =~= seq![
                    curv,
                ] + s);
                assert((seq![curv] + s).drop_first() =~= s);
                assert((seq![curv] + s)[0] == curv);
                assert(seq![Seq::<u8>::empty() + s[0]] + s.drop_first() =~= s);
                assert(cur@ =~= Seq::<u8>::empty());
                if curv.len() == 0 {
                    assert(candidates_in(seq![curv] + s, cmd@) == candidates_in(s, cmd@));
                } else {
                    assert(candidates_in(seq![curv] + s, cmd@) == seq![curv + seq![47u8] + cmd@]
                        + candidates_in(s, cmd@));
                    assert(donev + (seq![curv + seq![47u8] + cmd@] + candidates_in(s, cmd@))
                        =~= donev.push(curv + seq![47u8] + cmd@) + candidates_in(s, cmd@));
                }
            }
        } else {
            cur.push(b);
            proof {
                let s = split_colon(rem.drop_first());
                assert(split_colon(rem) =~= seq![seq![rem[0]] + s[0]] + s.drop_first());
                assert(split_colon(rem)[0] == seq![rem[0]] + s[0]);
                assert(split_colon(rem).drop_first() =~= s.drop_first());
                assert(cur@ =~= curv.push(rem[0]));
                assert(curv + (seq![rem[0]] + s[0]) =~= curv.push(rem[0]) + s[0]);
                assert(seq![curv + split_colon(rem)[0]] + split_colon(rem).drop_first() =~= seq![
                    curv.push(rem[0]) + s[0],
                ] + s.drop_first());
            }
        }
        j += 1;
    }
    let ghost curv = cur@;
    let ghost donev = bytes_list_view(done@);
    proof {
        assert(path_var@.skip(path_var@.len() as int) =~= Seq::<u8>::empty());
        assert(split_colon(Seq::<u8>::empty()) =~= seq![Seq::<u8>::empty()]);
        assert(curv + split_colon(Seq::<u8>::empty())[0] =~= curv);
        assert(seq![curv + split_colon(Seq::<u8>::empty())[0]] + split_colon(
            Seq::<u8>::empty(),
        ).drop_first() =~= seq![curv]);
        assert((seq![curv]).drop_first() =~= Seq::<Seq<u8>>::empty());
        assert(candidates_in(Seq::<Seq<u8>>::empty(), cmd@) == Seq::<Seq<u8>>::empty());
        assert((seq![curv])[0] == curv);
    }
    if cur.len() > 0 {
        let mut cand = cur;
        cand.push(47);
        crate::lexer::push_all(&mut cand, cmd);
        let ghost candv = cand@;
        done.push(cand);
        proof {
            assert(candv =~= curv + seq![47u8] + cmd@);
            assert(candidates_in(seq![curv], cmd@) =~= seq![curv + seq![47u8] + cmd@]);
            assert(bytes_list_view(done@) =~= donev.push(candv));
            assert(donev + seq![candv] =~= donev.push(candv));
        }
    } else {
        proof {
            assert(candidates_in(seq![curv], cmd@) =~= Seq::<Seq<u8>>::empty());
            assert(donev + Seq::<Seq<u8>>::empty() =~= donev);
        }
    }
    done
}

/// Builds the spawn plan of a resolved, well-formed pipeline.  Every stage's
/// bindings are pinned to [`stage_plan_model`]; the plan allocates one pipe
/// per adjacent stage pair.
pub fn plan_pipeline(p: &Pipeline, self_exe: &Vec<u8>) -> (r: SpawnPlan)
    requires
        crate::parser::pipeline_wf(p@),
        resolved(p@),
    ensures
        r.stages@.len() == p@.stages.len(),
        forall|i: int|
            0 <= i < r.stages@.len() ==> (#[trigger] r.stages@[i])@ == stage_plan_model(
                p@,
                i,
                self_exe@,
            ),
        r.pipe_count == p@.stages.len() - 1,
        r.background == p@.background,
{
    broadcast use lemma_bytes_list_view_len, lemma_bytes_list_view_index,
        crate::parser::lemma_args_view_len, crate::parser::lemma_args_view_index,
        crate::parser::lemma_stages_view_len, crate::parser::lemma_stages_view_index;

    let n = p.stages.len();
    let mut stages: Vec<StagePlan> = Vec::new();
    let mut i: usize = 0;
    while i < n
        invariant
            crate::parser::pipeline_wf(p@),
            resolved(p@),
            n == p.stages.len(),
            i <= n,
            stages@.len() == i,
            forall|k: int|
                0 <= k < i ==> (#[trigger] stages@[k])@ == stage_plan_model(p@, k, self_exe@),
        decreases n - i,
    {
        proof {
            assert(p@.stages[i as int] == p.stages@[i as int]@);
        }
        let argv: Vec<Vec<u8>> = match &p.stages[i].cmd {
            StageCmd::Run(args) => {
                let mut out: Vec<Vec<u8>> = Vec::new();
                let mut j: usize = 0;
                proof {
                    assert(p@.stages[i as int].cmd is Run);
                }
                while j < args.len()
                    invariant
                        resolved(p@),
                        0 <= i < p@.stages.len(),
                        p@.stages[i as int].cmd == StageCmdModel::Run(
                            crate::parser::args_view(args@),
                        ),
                        j <= args.len(),
                        out@.len() == j,
                        forall|k: int|
                            0 <= k < j ==> (#[trigger] out@[k])@ == arg_bytes(
                                crate::parser::args_view(args@)[k],
                            ),
                    decreases args.len() - j,
                {
                    proof {
                        assert(crate::parser::args_view(args@)[j as int] == args@[j as int]@);
                        assert(p@.stages[i as int].cmd->Run_0[j as int] is Plain);
                    }
                    match &args[j] {
                        Arg::Plain(w) => {
                            out.push(crate::lexer::copy_bytes(w));
                        },
                        Arg::Sub { .. } => {
                            proof {
                                assert(false);
                            }
                            out.push(Vec::new());
                        },
                    }
                    j += 1;
                }
                out
            },
            StageCmd::Subshell(script) => {
                let mut out: Vec<Vec<u8>> = Vec::new();
                out.push(crate::lexer::copy_bytes(self_exe));
                let mut flag: Vec<u8> = Vec::new();
                flag.push(45);
                flag.push(99);
                proof {
                    assert(flag@ =~= dash_c());
                }
                out.push(flag);
                out.push(crate::lexer::copy_bytes(script));
                out
            },
        };
        proof {
            assert(bytes_list_view(argv@) =~= stage_argv_model(p@.stages[i as int], self_exe@));
        }
        let stdin: InputSource = if i > 0 {
            InputSource::FromPipe(i - 1)
        } else {
            match &p.stages[i].stdin_file {
                Option::Some(path) => InputSource::FromFile(crate::lexer::copy_bytes(path)),
                Option::None => InputSource::Terminal,
            }
        };
        let stdout: OutputSink = if i < n - 1 {
            OutputSink::ToPipe(i)
        } else {
            match &p.stages[i].stdout_file {
                Option::Some((path, append)) => OutputSink::ToFile {
                    path: crate::lexer::copy_bytes(path),
                    append: *append,
                },
                Option::None => OutputSink::Terminal,
            }
        };
        let stderr: ErrSink = match &p.stages[i].stderr_file {
            Option::Some(path) => ErrSink::ToFile(crate::lexer::copy_bytes(path)),
            Option::None => ErrSink::Terminal,
        };
        let leader = i == 0;
        let sp = StagePlan { argv, stdin, stdout, stderr, leader };
        proof {
            assert(sp@ == stage_plan_model(p@, i as int, self_exe@));
        }
        stages.push(sp);
        i += 1;
    }
    SpawnPlan { stages, pipe_count: n - 1, background: p.background }
}

} // verus!
