//! The process-substitution resolver.
//!
//! A `<(...)` or `>(...)` argument stands for a named pipe fed or drained by
//! an auxiliary process.  The library's part is pure: [`substitution_points`]
//! lists every such argument in stage-then-argument order, and
//! [`apply_substitutions`] rewrites each one in place to the path the driver
//! allocated for it.  The driver, between the two calls, creates one FIFO per
//! point and spawns the auxiliary process (this interpreter re-invoked on the
//! inner text, bound to the FIFO).  Where the driver could not set a point
//! up, it hands back `None` and the argument degrades to the literal source
//! text, so the target program fails naturally when it opens the path.

use vstd::prelude::*;

use crate::parser::{
    render_token, Arg, ArgModel, CommandSpec, Pipeline, PipelineModel, StageCmd, StageCmdModel,
    StageModel,
};
use crate::token::TokenModel;

verus! {

/// One process substitution found in a pipeline: its stage and argument
/// position, its direction, and the inner command text.
pub struct SubRequest {
    pub stage: usize,
    pub arg: usize,
    pub output: bool,
    pub inner: Vec<u8>,
}

/// The model of a substitution point.
pub struct SubRequestModel {
    pub stage: int,
    pub arg: int,
    pub output: bool,
    pub inner: Seq<u8>,
}

impl View for SubRequest {
    type V = SubRequestModel;

    open spec fn view(&self) -> SubRequestModel {
        SubRequestModel {
            stage: self.stage as int,
            arg: self.arg as int,
            output: self.output,
            inner: self.inner@,
        }
    }
}

/// The model of a list of substitution points.
pub open spec fn subs_view(s: Seq<SubRequest>) -> Seq<SubRequestModel> {
    s.map_values(|r: SubRequest| r@)
}

pub broadcast proof fn lemma_subs_view_len(s: Seq<SubRequest>)
    ensures
        #[trigger] subs_view(s).len() == s.len(),
{
}

pub broadcast proof fn lemma_subs_view_index(s: Seq<SubRequest>, i: int)
    requires
        0 <= i < s.len(),
    ensures
        #[trigger] subs_view(s)[i] == s[i]@,
{
}

/// The substitution points of one argument vector from index `j` on.
pub open spec fn stage_sub_points(args: Seq<ArgModel>, stage: int, j: int) -> Seq<SubRequestModel>
    decreases args.len() - j,
{
    if j < 0 || j >= args.len() {
        Seq::empty()
    } else {
        match args[j] {
            ArgModel::Sub { output, inner } => seq![
                SubRequestModel { stage, arg: j, output, inner },
            ] + stage_sub_points(args, stage, j + 1),
            ArgModel::Plain(_) => stage_sub_points(args, stage, j + 1),
        }
    }
}

/// The substitution points of the whole pipeline from stage `i` on, in
/// stage-then-argument order.
pub open spec fn sub_points(p: PipelineModel, i: int) -> Seq<SubRequestModel>
    decreases p.stages.len() - i,
{
    if i < 0 || i >= p.stages.len() {
        Seq::empty()
    } else {
        (match p.stages[i].cmd {
            StageCmdModel::Run(args) => stage_sub_points(args, i, 0),
            StageCmdModel::Subshell(_) => Seq::empty(),
        }) + sub_points(p, i + 1)
    }
}

/// Lists every process substitution of the pipeline, in the order
/// [`apply_substitutions`] consumes the paths for them.
pub fn substitution_points(p: &Pipeline) -> (r: Vec<SubRequest>)
    ensures
        subs_view(r@) == sub_points(p@, 0),
{
    broadcast use lemma_subs_view_len, lemma_subs_view_index,
        crate::parser::lemma_stages_view_len, crate::parser::lemma_stages_view_index,
        crate::parser::lemma_args_view_len, crate::parser::lemma_args_view_index;

    let mut out: Vec<SubRequest> = Vec::new();
    let mut i: usize = 0;
    proof {
        assert(subs_view(out@) =~= Seq::<SubRequestModel>::empty());
        assert(Seq::<SubRequestModel>::empty() + sub_points(p@, 0) =~= sub_points(p@, 0));
    }
    while i < p.stages.len()
        invariant
            i <= p.stages.len(),
            sub_points(p@, 0) == subs_view(out@) + sub_points(p@, i as int),
        decreases p.stages.len() - i,
    {
        proof {
            assert(p@.stages[i as int] == p.stages@[i as int]@);
        }
        match &p.stages[i].cmd {
            StageCmd::Run(args) => {
                let ghost argsv = crate::parser::args_view(args@);
                let mut j: usize = 0;
                proof {
                    assert(p@.stages[i as int].cmd == StageCmdModel::Run(argsv));
                    assert(subs_view(out@) + (stage_sub_points(argsv, i as int, 0) + sub_points(
                        p@,
                        i as int + 1,
                    )) =~= (subs_view(out@) + stage_sub_points(argsv, i as int, 0)) + sub_points(
                        p@,
                        i as int + 1,
                    ));
                }
                while j < args.len()
                    invariant
                        j <= args.len(),
                        argsv == crate::parser::args_view(args@),
                        0 <= i < p@.stages.len(),
                        p@.stages[i as int].cmd == StageCmdModel::Run(argsv),
                        sub_points(p@, 0) == (subs_view(out@) + stage_sub_points(
                            argsv,
                            i as int,
                            j as int,
                        )) + sub_points(p@, i as int + 1),
                    decreases args.len() - j,
                {
                    let ghost outv = subs_view(out@);
                    proof {
                        assert(argsv[j as int] == args@[j as int]@);
                    }
                    match &args[j] {
                        Arg::Sub { output, inner } => {
                            let req = SubRequest {
                                stage: i,
                                arg: j,
                                output: *output,
                                inner: crate::lexer::copy_bytes(inner),
                            };
                            let ghost reqv = req@;
                            out.push(req);
                            proof {
                                assert(subs_view(out@) =~= outv.push(reqv));
                                assert(outv + (seq![reqv] + stage_sub_points(
                                    argsv,
                                    i as int,
                                    j as int + 1,
                                )) =~= outv.push(reqv) + stage_sub_points(
                                    argsv,
                                    i as int,
                                    j as int + 1,
                                ));
                            }
                        },
                        Arg::Plain(_) => {},
                    }
                    j += 1;
                }
            },
            StageCmd::Subshell(_) => {
                proof {
                    assert(subs_view(out@) + (Seq::<SubRequestModel>::empty() + sub_points(
                        p@,
                        i as int + 1,
                    )) =~= subs_view(out@) + sub_points(p@, i as int + 1));
                }
            },
        }
        i += 1;
    }
    proof {
        assert(subs_view(out@) + Seq::<SubRequestModel>::empty() =~= subs_view(out@));
    }
    out
}

/// The model of the driver's answers: one optional path per point.
pub open spec fn paths_view(s: Seq<Option<Vec<u8>>>) -> Seq<Option<Seq<u8>>> {
    s.map_values(
        |o: Option<Vec<u8>>|
            match o {
                Option::Some(v) => Option::Some(v@),
                Option::None => Option::None,
            },
    )
}

pub broadcast proof fn lemma_paths_view_len(s: Seq<Option<Vec<u8>>>)
    ensures
        #[trigger] paths_view(s).len() == s.len(),
{
}

pub broadcast proof fn lemma_paths_view_index(s: Seq<Option<Vec<u8>>>, i: int)
    requires
        0 <= i < s.len(),
    ensures
        #[trigger] paths_view(s)[i] == match s[i] {
            Option::Some(v) => Option::Some(v@),
            Option::None => Option::None,
        },
{
}

/// The literal source text of an unresolved substitution, kept as the
/// argument when the driver could not set the point up.
pub open spec fn sub_literal(output: bool, inner: Seq<u8>) -> Seq<u8> {
    render_token(TokenModel::ProcessSub { output, inner })
}

/// One argument after substitution: a plain word stays; a substitution
/// becomes the allocated path, or its literal source text without one.
pub open spec fn substituted_arg(a: ArgModel, path: Option<Seq<u8>>) -> ArgModel {
    match a {
        ArgModel::Plain(w) => ArgModel::Plain(w),
        ArgModel::Sub { output, inner } => match path {
            Option::Some(p) => ArgModel::Plain(p),
            Option::None => ArgModel::Plain(sub_literal(output, inner)),
        },
    }
}

/// An argument vector after substitution, consuming paths from `k` on:
/// the new arguments and the next unconsumed path index.
pub open spec fn subst_args(args: Seq<ArgModel>, paths: Seq<Option<Seq<u8>>>, k: int) -> (
    Seq<ArgModel>,
    int,
)
    decreases args.len(),
{
    if args.len() == 0 {
        (Seq::empty(), k)
    } else {
        match args[0] {
            ArgModel::Plain(w) => {
                let (rest, k2) = subst_args(args.drop_first(), paths, k);
                (seq![ArgModel::Plain(w)] + rest, k2)
            },
            ArgModel::Sub { output, inner } => {
                let path = if 0 <= k < paths.len() {
                    paths[k]
                } else {
                    Option::None
                };
                let na = substituted_arg(ArgModel::Sub { output, inner }, path);
                let (rest, k2) = subst_args(args.drop_first(), paths, k + 1);
                (seq![na] + rest, k2)
            },
        }
    }
}

/// The stages after substitution, consuming paths from `k` on.
pub open spec fn subst_stages(stages: Seq<StageModel>, paths: Seq<Option<Seq<u8>>>, k: int) -> (
    Seq<StageModel>,
    int,
)
    decreases stages.len(),
{
    if stages.len() == 0 {
        (Seq::empty(), k)
    } else {
        let s = stages[0];
        let (ns, k2) = match s.cmd {
            StageCmdModel::Run(args) => {
                let (nargs, k2) = subst_args(args, paths, k);
                (StageModel { cmd: StageCmdModel::Run(nargs), ..s }, k2)
            },
            StageCmdModel::Subshell(_) => (s, k),
        };
        let (rest, k3) = subst_stages(stages.drop_first(), paths, k2);
        (seq![ns] + rest, k3)
    }
}

/// What [`apply_substitutions`] returns.
pub open spec fn subst_pipeline(p: PipelineModel, paths: Seq<Option<Seq<u8>>>) -> PipelineModel {
    PipelineModel { stages: subst_stages(p.stages, paths, 0).0, background: p.background }
}

/// What substitution keeps of a stage: the redirects, the kind, and the
/// argument count; every remaining argument is plain.
pub open spec fn stage_shape_kept(old_st: StageModel, new_st: StageModel) -> bool {
    &&& new_st.stdin_file == old_st.stdin_file
    &&& new_st.stdout_file == old_st.stdout_file
    &&& new_st.stderr_file == old_st.stderr_file
    &&& match (old_st.cmd, new_st.cmd) {
        (StageCmdModel::Run(a), StageCmdModel::Run(b)) => b.len() == a.len() && forall|j: int|
            0 <= j < b.len() ==> (#[trigger] b[j]) is Plain,
        (StageCmdModel::Subshell(s), StageCmdModel::Subshell(t)) => t == s,
        _ => false,
    }
}

pub proof fn lemma_subst_args_props(args: Seq<ArgModel>, paths: Seq<Option<Seq<u8>>>, k: int)
    ensures
        subst_args(args, paths, k).0.len() == args.len(),
        forall|j: int|
            0 <= j < args.len() ==> (#[trigger] subst_args(args, paths, k).0[j]) is Plain,
    decreases args.len(),
{
    if args.len() == 0 {
    } else {
        let (na, k2) = subst_args(args, paths, k);
        match args[0] {
            ArgModel::Plain(w) => {
                lemma_subst_args_props(args.drop_first(), paths, k);
                assert forall|j: int| 0 <= j < args.len() implies (#[trigger] na[j]) is Plain by {
                    if j == 0 {
                    } else {
                        assert(na[j] == subst_args(args.drop_first(), paths, k).0[j - 1]);
                    }
                }
            },
            ArgModel::Sub { output, inner } => {
                lemma_subst_args_props(args.drop_first(), paths, k + 1);
                assert forall|j: int| 0 <= j < args.len() implies (#[trigger] na[j]) is Plain by {
                    if j == 0 {
                    } else {
                        assert(na[j] == subst_args(args.drop_first(), paths, k + 1).0[j - 1]);
                    }
                }
            },
        }
    }
}

pub proof fn lemma_subst_stages_props(
    stages: Seq<StageModel>,
    paths: Seq<Option<Seq<u8>>>,
    k: int,
)
    ensures
        subst_stages(stages, paths, k).0.len() == stages.len(),
        forall|i: int|
            0 <= i < stages.len() ==> stage_shape_kept(
                stages[i],
                #[trigger] subst_stages(stages, paths, k).0[i],
            ),
    decreases stages.len(),
{
    if stages.len() == 0 {
    } else {
        let (ns, k3) = subst_stages(stages, paths, k);
        let s = stages[0];
        let k2 = match s.cmd {
            StageCmdModel::Run(args) => {
                lemma_subst_args_props(args, paths, k);
                subst_args(args, paths, k).1
            },
            StageCmdModel::Subshell(_) => k,
        };
        lemma_subst_stages_props(stages.drop_first(), paths, k2);
        assert forall|i: int| 0 <= i < stages.len() implies stage_shape_kept(
            stages[i],
            #[trigger] ns[i],
        ) by {
            if i == 0 {
            } else {
                assert(ns[i] == subst_stages(stages.drop_first(), paths, k2).0[i - 1]);
                assert(stages[i] == stages.drop_first()[i - 1]);
            }
        }
    }
}

/// Substitution leaves a resolved pipeline: every argument is plain, and a
/// well-formed pipeline stays well formed (same stage count, same argument
/// counts, same redirections).
pub proof fn lemma_subst_pipeline_wf(p: PipelineModel, paths: Seq<Option<Seq<u8>>>)
    ensures
        crate::plan::resolved(subst_pipeline(p, paths)),
        crate::parser::pipeline_wf(p) ==> crate::parser::pipeline_wf(subst_pipeline(p, paths)),
{
    lemma_subst_stages_props(p.stages, paths, 0);
    let np = subst_pipeline(p, paths);
    assert forall|i: int| 0 <= i < np.stages.len() implies match (#[trigger] np.stages[i]).cmd {
        StageCmdModel::Run(args) => forall|j: int|
            0 <= j < args.len() ==> (#[trigger] args[j]) is Plain,
        StageCmdModel::Subshell(_) => true,
    } by {
        assert(stage_shape_kept(p.stages[i], np.stages[i]));
    }
    if crate::parser::pipeline_wf(p) {
        assert forall|i: int| 0 <= i < np.stages.len() implies crate::parser::stage_wf(
            #[trigger] np.stages[i],
        ) by {
            assert(stage_shape_kept(p.stages[i], np.stages[i]));
            assert(crate::parser::stage_wf(p.stages[i]));
        }
        assert forall|i: int| 1 <= i < np.stages.len() implies (
        #[trigger] np.stages[i]).stdin_file is None by {
            assert(stage_shape_kept(p.stages[i], np.stages[i]));
        }
        assert forall|i: int| 0 <= i < np.stages.len() - 1 implies (
        #[trigger] np.stages[i]).stdout_file is None by {
            assert(stage_shape_kept(p.stages[i], np.stages[i]));
        }
    }
}

/// Executable form of [`sub_literal`].
fn sub_literal_x(output: bool, inner: &Vec<u8>) -> (r: Vec<u8>)
    ensures
        r@ == sub_literal(output, inner@),
{
    let mut v: Vec<u8> = Vec::new();
    if output {
        v.push(62);
    } else {
        v.push(60);
    }
    v.push(40);
    crate::lexer::push_all(&mut v, inner);
    v.push(41);
    proof {
        assert(v@ =~= (if output {
            seq![62u8]
        } else {
            seq![60u8]
        }) + seq![40u8] + inner@ + seq![41u8]);
    }
    v
}

/// Rewrites every process substitution to the path the driver allocated for
/// it, in the order [`substitution_points`] listed them; a `None` answer
/// leaves the literal source text.  The result is resolved and, for a
/// well-formed pipeline, still well formed.
pub fn apply_substitutions(p: Pipeline, paths: &Vec<Option<Vec<u8>>>) -> (r: Pipeline)
    ensures
        r@ == subst_pipeline(p@, paths_view(paths@)),
        crate::plan::resolved(r@),
        crate::parser::pipeline_wf(p@) ==> crate::parser::pipeline_wf(r@),
{
    broadcast use lemma_paths_view_len, lemma_paths_view_index,
        crate::parser::lemma_stages_view_len, crate::parser::lemma_stages_view_index,
        crate::parser::lemma_args_view_len, crate::parser::lemma_args_view_index;

    let ghost pv = paths_view(paths@);
    let ghost origst = p@.stages;
    proof {
        lemma_subst_pipeline_wf(p@, pv);
    }
    let background = p.background;
    let paths_len = paths.len();
    let mut stages = p.stages;
    let mut done: Vec<CommandSpec> = Vec::new();
    let mut k: usize = 0;
    let ghost mut sk: int = 0;
    proof {
        assert(crate::parser::stages_view(stages@) =~= origst);
        assert(crate::parser::stages_view(done@) =~= Seq::<StageModel>::empty());
        assert(Seq::<StageModel>::empty() + subst_stages(origst, pv, 0).0 =~= subst_stages(
            origst,
            pv,
            0,
        ).0);
    }
    while stages.len() > 0
        invariant
            paths_len == paths@.len(),
            pv == paths_view(paths@),
            k as int == sk || (k == usize::MAX && sk >= usize::MAX as int),
            0 <= sk,
            subst_stages(origst, pv, 0).0 == crate::parser::stages_view(done@) + subst_stages(
                crate::parser::stages_view(stages@),
                pv,
                sk,
            ).0,
        decreases stages@.len(),
    {
        let ghost remv = crate::parser::stages_view(stages@);
        let ghost donev = crate::parser::stages_view(done@);
        let ghost sseq = stages@;
        let st = stages.remove(0);
        proof {
            assert(crate::parser::stages_view(sseq)[0] == sseq[0]@);
            assert(st@ == remv[0]);
            assert forall|t: int| 0 <= t < stages@.len() implies #[trigger] crate::parser::stages_view(
                stages@,
            )[t] == remv.drop_first()[t] by {
                assert(stages@[t] == sseq[t + 1]);
                assert(crate::parser::stages_view(sseq)[t + 1] == sseq[t + 1]@);
            }
            assert(crate::parser::stages_view(stages@) =~= remv.drop_first());
        }
        let CommandSpec { cmd, stdin_file, stdout_file, stderr_file } = st;
        let new_cmd: StageCmd = match cmd {
            StageCmd::Subshell(script) => StageCmd::Subshell(script),
            StageCmd::Run(args) => {
                let ghost argsv0 = crate::parser::args_view(args@);
                let ghost k0 = sk;
                let mut args = args;
                let mut nargs: Vec<Arg> = Vec::new();
                proof {
                    assert(crate::parser::args_view(args@) =~= argsv0);
                    assert(crate::parser::args_view(nargs@) =~= Seq::<ArgModel>::empty());
                    assert(Seq::<ArgModel>::empty() + subst_args(argsv0, pv, k0).0 =~= subst_args(
                        argsv0,
                        pv,
                        k0,
                    ).0);
                }
                while args.len() > 0
                    invariant
                        paths_len == paths@.len(),
                        pv == paths_view(paths@),
                        k as int == sk || (k == usize::MAX && sk >= usize::MAX as int),
                        k0 <= sk,
                        subst_args(argsv0, pv, k0).0 == crate::parser::args_view(nargs@)
                            + subst_args(crate::parser::args_view(args@), pv, sk).0,
                        subst_args(argsv0, pv, k0).1 == subst_args(
                            crate::parser::args_view(args@),
                            pv,
                            sk,
                        ).1,
                    decreases args@.len(),
                {
                    let ghost aremv = crate::parser::args_view(args@);
                    let ghost nav = crate::parser::args_view(nargs@);
                    let ghost aseq = args@;
                    let a = args.remove(0);
                    proof {
                        assert(crate::parser::args_view(aseq)[0] == aseq[0]@);
                        assert(a@ == aremv[0]);
                        assert forall|t: int|
                            0 <= t < args@.len() implies #[trigger] crate::parser::args_view(
                            args@,
                        )[t] == aremv.drop_first()[t] by {
                            assert(args@[t] == aseq[t + 1]);
                            assert(crate::parser::args_view(aseq)[t + 1] == aseq[t + 1]@);
                        }
                        assert(crate::parser::args_view(args@) =~= aremv.drop_first());
                    }
                    match a {
                        Arg::Plain(w) => {
                            let ghost wv = w@;
                            nargs.push(Arg::Plain(w));
                            proof {
                                assert(crate::parser::args_view(nargs@) =~= nav.push(
                                    ArgModel::Plain(wv),
                                ));
                                assert(nav + (seq![ArgModel::Plain(wv)] + subst_args(
                                    aremv.drop_first(),
                                    pv,
                                    sk,
                                ).0) =~= nav.push(ArgModel::Plain(wv)) + subst_args(
                                    aremv.drop_first(),
                                    pv,
                                    sk,
                                ).0);
                            }
                        },
                        Arg::Sub { output, inner } => {
                            let replacement: Vec<u8> = if k < paths_len {
                                match &paths[k] {
                                    Option::Some(v) => crate::lexer::copy_bytes(v),
                                    Option::None => sub_literal_x(output, &inner),
                                }
                            } else {
                                sub_literal_x(output, &inner)
                            };
                            proof {
                                if k < paths_len {
                                    assert(paths_view(paths@)[k as int] == (
                                    match paths@[k as int] {
                                        Option::Some(v) => Option::Some(v@),
                                        Option::None => Option::None,
                                    }));
                                }
                                let specpath = if 0 <= sk < pv.len() {
                                    pv[sk]
                                } else {
                                    Option::None
                                };
                                assert(ArgModel::Plain(replacement@) == substituted_arg(
                                    aremv[0],
                                    specpath,
                                ));
                            }
                            let ghost rv = replacement@;
                            nargs.push(Arg::Plain(replacement));
                            if k < usize::MAX {
                                k += 1;
                            }
                            proof {
                                sk = sk + 1;
                                assert(crate::parser::args_view(nargs@) =~= nav.push(
                                    ArgModel::Plain(rv),
                                ));
                                assert(nav + (seq![ArgModel::Plain(rv)] + subst_args(
                                    aremv.drop_first(),
                                    pv,
                                    sk,
                                ).0) =~= nav.push(ArgModel::Plain(rv)) + subst_args(
                                    aremv.drop_first(),
                                    pv,
                                    sk,
                                ).0);
                            }
                        },
                    }
                }
                proof {
                    assert(crate::parser::args_view(nargs@) + Seq::<ArgModel>::empty()
                        =~= crate::parser::args_view(nargs@));
                    assert(subst_args(argsv0, pv, k0).0 == crate::parser::args_view(nargs@));
                    assert(subst_args(argsv0, pv, k0).1 == sk);
                }
                StageCmd::Run(nargs)
            },
        };
        let ns = CommandSpec { cmd: new_cmd, stdin_file, stdout_file, stderr_file };
        let ghost nsv = ns@;
        done.push(ns);
        proof {
            assert(crate::parser::stages_view(done@) =~= donev.push(nsv));
            assert(donev + (seq![nsv] + subst_stages(remv.drop_first(), pv, sk).0) =~= donev.push(
                nsv,
            ) + subst_stages(remv.drop_first(), pv, sk).0);
        }
    }
    proof {
        assert(crate::parser::stages_view(done@) + Seq::<StageModel>::empty()
            =~= crate::parser::stages_view(done@));
    }
    Pipeline { stages: done, background }
}

} // verus!
