//! Builtin commands, consumed at their interface: `cd [path]`,
//! `exit|quit [code]`, `jobs`, `fg %N`, `bg %N`.
//!
//! None of these may stand inside a pipeline or carry a redirection; using
//! one that way is a reported error, never a silent fallback to an external
//! program.  The classifier decides, from a parsed pipeline, whether the
//! driver runs a builtin or spawns the pipeline; the driver performs the
//! builtin's effect (changing directory, exiting, signalling a job).

use vstd::prelude::*;

use crate::parser::{ArgModel, Pipeline, PipelineModel, StageCmdModel};
use crate::token::SyntaxError;

verus! {

/// An ASCII digit.
pub open spec fn is_digit(b: u8) -> bool {
    48 <= b <= 57
}

/// Every byte a digit.
pub open spec fn all_digits(s: Seq<u8>) -> bool {
    forall|i: int| 0 <= i < s.len() ==> is_digit(#[trigger] s[i])
}

/// The number the digit string denotes, most significant first.
pub open spec fn digits_val(s: Seq<u8>) -> int
    decreases s.len(),
{
    if s.len() == 0 {
        0
    } else {
        digits_val(s.drop_last()) * 10 + (s.last() - 48)
    }
}

pub proof fn lemma_digits_val_nonneg(s: Seq<u8>)
    requires
        all_digits(s),
    ensures
        digits_val(s) >= 0,
    decreases s.len(),
{
    if s.len() == 0 {
    } else {
        assert(all_digits(s.drop_last()));
        lemma_digits_val_nonneg(s.drop_last());
    }
}

/// More digits never shrink the value.
pub proof fn lemma_digits_val_prefix(s: Seq<u8>, k: int)
    requires
        0 <= k <= s.len(),
        all_digits(s),
    ensures
        digits_val(s) >= digits_val(s.take(k)),
    decreases s.len() - k,
{
    if k == s.len() {
        assert(s.take(k) =~= s);
    } else {
        assert(s.take(k + 1).drop_last() =~= s.take(k));
        assert(all_digits(s.take(k)));
        lemma_digits_val_nonneg(s.take(k));
        assert(digits_val(s.take(k + 1)) == digits_val(s.take(k)) * 10 + (s[k] - 48));
        lemma_digits_val_prefix(s, k + 1);
    }
}

/// The value of the digit run `s.skip(from)`, if it is non-empty, all
/// digits, and fits in a `u64`.
pub open spec fn parse_u64_spec(s: Seq<u8>) -> Option<u64> {
    if s.len() >= 1 && all_digits(s) && digits_val(s) <= u64::MAX {
        Option::Some(digits_val(s) as u64)
    } else {
        Option::None
    }
}

/// Reads the digit run of `s` from index `from` to the end.
fn digits_value(s: &Vec<u8>, from: usize) -> (r: Option<u64>)
    requires
        from <= s.len(),
    ensures
        (match r {
            Option::Some(v) => parse_u64_spec(s@.skip(from as int)) == Option::Some(v),
            Option::None => parse_u64_spec(s@.skip(from as int)) is None,
        }),
{
    let ghost d = s@.skip(from as int);
    if from == s.len() {
        return Option::None;
    }
    let mut acc: u128 = 0;
    let mut j: usize = from;
    proof {
        assert(d.take(0) =~= Seq::<u8>::empty());
    }
    while j < s.len()
        invariant
            from <= j <= s.len(),
            from < s.len(),
            d == s@.skip(from as int),
            acc == digits_val(d.take(j - from)),
            all_digits(d.take(j - from)),
            acc <= u64::MAX,
        decreases s.len() - j,
    {
        let b = s[j];
        if !(48 <= b && b <= 57) {
            proof {
                assert(d[j - from] == s@[j as int]);
                assert(!all_digits(d));
            }
            return Option::None;
        }
        proof {
            assert(d[j - from] == s@[j as int]);
            assert(d.take(j - from + 1).drop_last() =~= d.take(j - from));
            assert(d.take(j - from + 1).last() == d[j - from]);
        }
        acc = acc * 10 + ((b - 48) as u128);
        j += 1;
        if acc > u64::MAX as u128 {
            proof {
                if all_digits(d) {
                    lemma_digits_val_prefix(d, j - from);
                }
            }
            return Option::None;
        }
    }
    proof {
        assert(d.take(s@.len() - from) =~= d);
    }
    Option::Some(acc as u64)
}

/// The exit code an `exit`/`quit` word denotes: an optional minus sign and
/// digits, within `i32` range.
pub open spec fn parse_i32_spec(s: Seq<u8>) -> Option<i32> {
    if s.len() >= 1 && s[0] == 45 {
        let d = s.skip(1);
        if d.len() >= 1 && all_digits(d) && digits_val(d) <= 0x8000_0000 {
            Option::Some((-digits_val(d)) as i32)
        } else {
            Option::None
        }
    } else if s.len() >= 1 && all_digits(s) && digits_val(s) <= 0x7fff_ffff {
        Option::Some(digits_val(s) as i32)
    } else {
        Option::None
    }
}

/// Reads a decimal integer with an optional leading minus sign.
pub fn parse_i32(s: &Vec<u8>) -> (r: Option<i32>)
    ensures
        (match r {
            Option::Some(v) => parse_i32_spec(s@) == Option::Some(v),
            Option::None => parse_i32_spec(s@) is None,
        }),
{
    if s.len() == 0 {
        return Option::None;
    }
    if s[0] == 45 {
        match digits_value(s, 1) {
            Option::Some(v) => {
                if v <= 0x8000_0000u64 {
                    proof {
                        assert(all_digits(s@.skip(1)));
                        lemma_digits_val_nonneg(s@.skip(1));
                        assert(digits_val(s@.skip(1)) as u64 == v);
                        assert(digits_val(s@.skip(1)) == v as int);
                        assert(i32::MIN as int <= -(v as int) <= 0);
                    }
                    Option::Some((-(v as i64)) as i32)
                } else {
                    proof {
                        assert(all_digits(s@.skip(1)));
                        lemma_digits_val_nonneg(s@.skip(1));
                        assert(digits_val(s@.skip(1)) as u64 == v);
                        assert(digits_val(s@.skip(1)) == v as int);
                    }
                    Option::None
                }
            },
            Option::None => Option::None,
        }
    } else {
        match digits_value(s, 0) {
            Option::Some(v) => {
                proof {
                    assert(s@.skip(0) =~= s@);
                    assert(all_digits(s@));
                    lemma_digits_val_nonneg(s@);
                    assert(digits_val(s@) as u64 == v);
                    assert(digits_val(s@) == v as int);
                }
                if v <= 0x7fff_ffffu64 {
                    Option::Some(v as i32)
                } else {
                    Option::None
                }
            },
            Option::None => {
                proof {
                    assert(s@.skip(0) =~= s@);
                }
                Option::None
            },
        }
    }
}

/// A job reference as `fg`/`bg` take it: `%` and a job id.
pub open spec fn parse_job_ref_spec(w: Seq<u8>) -> Option<u64> {
    if w.len() >= 2 && w[0] == 37 {
        parse_u64_spec(w.skip(1))
    } else {
        Option::None
    }
}

/// Reads a `%N` job reference.
pub fn parse_job_ref(w: &Vec<u8>) -> (r: Option<u64>)
    ensures
        (match r {
            Option::Some(v) => parse_job_ref_spec(w@) == Option::Some(v),
            Option::None => parse_job_ref_spec(w@) is None,
        }),
{
    if w.len() >= 2 && w[0] == 37 {
        digits_value(w, 1)
    } else {
        Option::None
    }
}

/// The builtin command names.
pub open spec fn cd_name() -> Seq<u8> {
    seq![99u8, 100u8]
}

pub open spec fn exit_name() -> Seq<u8> {
    seq![101u8, 120u8, 105u8, 116u8]
}

pub open spec fn quit_name() -> Seq<u8> {
    seq![113u8, 117u8, 105u8, 116u8]
}

pub open spec fn jobs_name() -> Seq<u8> {
    seq![106u8, 111u8, 98u8, 115u8]
}

pub open spec fn fg_name() -> Seq<u8> {
    seq![102u8, 103u8]
}

pub open spec fn bg_name() -> Seq<u8> {
    seq![98u8, 103u8]
}

/// Whether a word names a builtin.
pub open spec fn is_builtin_name(w: Seq<u8>) -> bool {
    w == cd_name() || w == exit_name() || w == quit_name() || w == jobs_name() || w == fg_name()
        || w == bg_name()
}

/// A builtin invocation, ready for the driver to perform.
#[derive(PartialEq, Eq, Debug)]
pub enum BuiltinCmd {
    /// Change directory: to the argument, or to the home directory.
    Cd(Option<Vec<u8>>),
    /// Leave the interpreter with this exit code.
    Exit(i32),
    /// List the job table.
    Jobs,
    /// Resume job N in the foreground.
    Fg(u64),
    /// Resume job N in the background.
    Bg(u64),
}

/// The model of a builtin invocation.
pub enum BuiltinCmdModel {
    Cd(Option<Seq<u8>>),
    Exit(i32),
    Jobs,
    Fg(u64),
    Bg(u64),
}

impl View for BuiltinCmd {
    type V = BuiltinCmdModel;

    open spec fn view(&self) -> BuiltinCmdModel {
        match self {
            BuiltinCmd::Cd(arg) => BuiltinCmdModel::Cd(
                match arg {
                    Option::Some(p) => Option::Some(p@),
                    Option::None => Option::None,
                },
            ),
            BuiltinCmd::Exit(c) => BuiltinCmdModel::Exit(*c),
            BuiltinCmd::Jobs => BuiltinCmdModel::Jobs,
            BuiltinCmd::Fg(n) => BuiltinCmdModel::Fg(*n),
            BuiltinCmd::Bg(n) => BuiltinCmdModel::Bg(*n),
        }
    }
}

/// What a parsed pipeline turns out to be: a builtin to perform in the
/// interpreter itself, or an external pipeline to spawn.
#[derive(PartialEq, Eq, Debug)]
pub enum CommandClass {
    Builtin(BuiltinCmd),
    External,
}

/// The model of a classification.
pub enum CommandClassModel {
    Builtin(BuiltinCmdModel),
    External,
}

impl View for CommandClass {
    type V = CommandClassModel;

    open spec fn view(&self) -> CommandClassModel {
        match self {
            CommandClass::Builtin(b) => CommandClassModel::Builtin(b@),
            CommandClass::External => CommandClassModel::External,
        }
    }
}

/// Whether a stage's command word names a builtin.
pub open spec fn stage_head_builtin(s: crate::parser::StageModel) -> bool {
    match s.cmd {
        StageCmdModel::Run(args) => args.len() >= 1 && args[0] is Plain && is_builtin_name(
            args[0]->Plain_0,
        ),
        StageCmdModel::Subshell(_) => false,
    }
}

/// The builtin of a lone, redirect-free stage whose head is a builtin name.
pub open spec fn parse_builtin_spec(args: Seq<ArgModel>) -> Result<
    CommandClassModel,
    SyntaxError,
> {
    if exists|j: int| 1 <= j < args.len() && !(#[trigger] args[j] is Plain) {
        Err(SyntaxError::BadBuiltinArgument)
    } else {
        let name = args[0]->Plain_0;
        if name == cd_name() {
            Ok(
                CommandClassModel::Builtin(
                    BuiltinCmdModel::Cd(
                        if args.len() >= 2 {
                            Option::Some(args[1]->Plain_0)
                        } else {
                            Option::None
                        },
                    ),
                ),
            )
        } else if name == exit_name() || name == quit_name() {
            Ok(
                CommandClassModel::Builtin(
                    BuiltinCmdModel::Exit(
                        if args.len() >= 2 {
                            match parse_i32_spec(args[1]->Plain_0) {
                                Option::Some(c) => c,
                                Option::None => 0,
                            }
                        } else {
                            0
                        },
                    ),
                ),
            )
        } else if name == jobs_name() {
            Ok(CommandClassModel::Builtin(BuiltinCmdModel::Jobs))
        } else {
            // fg or bg
            if args.len() >= 2 {
                match parse_job_ref_spec(args[1]->Plain_0) {
                    Option::Some(n) => Ok(
                        CommandClassModel::Builtin(
                            if name == fg_name() {
                                BuiltinCmdModel::Fg(n)
                            } else {
                                BuiltinCmdModel::Bg(n)
                            },
                        ),
                    ),
                    Option::None => Err(SyntaxError::BadBuiltinArgument),
                }
            } else {
                Err(SyntaxError::BadBuiltinArgument)
            }
        }
    }
}

/// What [`classify_pipeline`] returns: a pipeline with no builtin head
/// anywhere is external; a builtin head inside a multi-stage pipeline or
/// beside a redirection is the reported misuse; a lone clean builtin stage
/// is parsed into its invocation.
pub open spec fn classify_spec(p: PipelineModel) -> Result<CommandClassModel, SyntaxError> {
    if !(exists|i: int| 0 <= i < p.stages.len() && stage_head_builtin(#[trigger] p.stages[i])) {
        Ok(CommandClassModel::External)
    } else if p.stages.len() > 1 {
        Err(SyntaxError::BuiltinInPipeline)
    } else {
        let s = p.stages[0];
        if s.stdin_file is Some || s.stdout_file is Some || s.stderr_file is Some {
            Err(SyntaxError::BuiltinWithRedirect)
        } else {
            parse_builtin_spec(s.cmd->Run_0)
        }
    }
}

/// Whether a word is one of the builtin names.
fn is_builtin_word(w: &Vec<u8>) -> (r: bool)
    ensures
        r == is_builtin_name(w@),
{
    let r = (w.len() == 2 && w[0] == 99 && w[1] == 100) || (w.len() == 4 && w[0] == 101 && w[1]
        == 120 && w[2] == 105 && w[3] == 116) || (w.len() == 4 && w[0] == 113 && w[1] == 117
        && w[2] == 105 && w[3] == 116) || (w.len() == 4 && w[0] == 106 && w[1] == 111 && w[2]
        == 98 && w[3] == 115) || (w.len() == 2 && w[0] == 102 && w[1] == 103) || (w.len() == 2
        && w[0] == 98 && w[1] == 103);
    proof {
        if r {
            if w@.len() == 2 && w@[0] == 99 && w@[1] == 100 {
                assert(w@ =~= cd_name());
            } else if w@.len() == 4 && w@[0] == 101 {
                assert(w@ =~= exit_name());
            } else if w@.len() == 4 && w@[0] == 113 {
                assert(w@ =~= quit_name());
            } else if w@.len() == 4 {
                assert(w@ =~= jobs_name());
            } else if w@[0] == 102 {
                assert(w@ =~= fg_name());
            } else {
                assert(w@ =~= bg_name());
            }
        }
    }
    r
}

/// Whether this word equals the given two-byte name.
fn word_is2(w: &Vec<u8>, a: u8, b: u8) -> (r: bool)
    ensures
        r == (w@ == seq![a, b]),
{
    let r = w.len() == 2 && w[0] == a && w[1] == b;
    proof {
        if r {
            assert(w@ =~= seq![a, b]);
        }
    }
    r
}

/// Whether this word equals the given four-byte name.
fn word_is4(w: &Vec<u8>, a: u8, b: u8, c: u8, d: u8) -> (r: bool)
    ensures
        r == (w@ == seq![a, b, c, d]),
{
    let r = w.len() == 4 && w[0] == a && w[1] == b && w[2] == c && w[3] == d;
    proof {
        if r {
            assert(w@ =~= seq![a, b, c, d]);
        }
    }
    r
}

/// Classifies a parsed pipeline: external, a builtin to perform, or a
/// reported builtin misuse.  Pinned to [`classify_spec`].
pub fn classify_pipeline(p: &Pipeline) -> (r: Result<CommandClass, SyntaxError>)
    ensures
        r matches Ok(c) ==> classify_spec(p@) == Ok::<CommandClassModel, SyntaxError>(c@),
        r matches Err(e) ==> classify_spec(p@) == Err::<CommandClassModel, SyntaxError>(e),
{
    broadcast use crate::parser::lemma_stages_view_len, crate::parser::lemma_stages_view_index,
        crate::parser::lemma_args_view_len, crate::parser::lemma_args_view_index;

    let mut found = false;
    let mut i: usize = 0;
    let n = p.stages.len();
    while i < n
        invariant
            i <= n,
            n == p.stages.len(),
            found ==> exists|k: int|
                0 <= k < p@.stages.len() && stage_head_builtin(#[trigger] p@.stages[k]),
            !found ==> forall|k: int|
                0 <= k < i ==> !stage_head_builtin(#[trigger] p@.stages[k]),
        decreases n - i,
    {
        proof {
            assert(p@.stages[i as int] == p.stages@[i as int]@);
        }
        match &p.stages[i].cmd {
            crate::parser::StageCmd::Run(args) => {
                if args.len() >= 1 {
                    proof {
                        assert(crate::parser::args_view(args@)[0] == args@[0]@);
                    }
                    match &args[0] {
                        crate::parser::Arg::Plain(w) => {
                            if is_builtin_word(w) {
                                found = true;
                            }
                        },
                        crate::parser::Arg::Sub { .. } => {},
                    }
                }
            },
            crate::parser::StageCmd::Subshell(_) => {},
        }
        i += 1;
    }
    if !found {
        return Ok(CommandClass::External);
    }
    if n > 1 {
        return Err(SyntaxError::BuiltinInPipeline);
    }
    proof {
        assert(stage_head_builtin(p@.stages[0]));
    }
    let stage = &p.stages[0];
    if stage.stdin_file.is_some() || stage.stdout_file.is_some() || stage.stderr_file.is_some() {
        return Err(SyntaxError::BuiltinWithRedirect);
    }
    match &stage.cmd {
        crate::parser::StageCmd::Subshell(_) => {
            proof {
                assert(false);
            }
            Ok(CommandClass::External)
        },
        crate::parser::StageCmd::Run(args) => {
            let ghost argsv = crate::parser::args_view(args@);
            proof {
                assert(p@.stages[0].cmd->Run_0 == argsv);
                assert(classify_spec(p@) == parse_builtin_spec(argsv));
            }
            let m = args.len();
            let mut j: usize = 1;
            while j < m
                invariant
                    1 <= j <= m,
                    m == args.len(),
                    argsv == crate::parser::args_view(args@),
                    classify_spec(p@) == parse_builtin_spec(argsv),
                    forall|k: int| 1 <= k < j ==> (#[trigger] argsv[k]) is Plain,
                decreases m - j,
            {
                proof {
                    assert(argsv[j as int] == args@[j as int]@);
                }
                match &args[j] {
                    crate::parser::Arg::Sub { .. } => {
                        return Err(SyntaxError::BadBuiltinArgument);
                    },
                    crate::parser::Arg::Plain(_) => {},
                }
                j += 1;
            }
            proof {
                assert(argsv[0] == args@[0]@);
            }
            match &args[0] {
                crate::parser::Arg::Sub { .. } => {
                    proof {
                        assert(false);
                    }
                    Ok(CommandClass::External)
                },
                crate::parser::Arg::Plain(name) => {
                    if word_is2(name, 99, 100) {
                        // cd
                        let arg: Option<Vec<u8>> = if args.len() >= 2 {
                            proof {
                                assert(argsv[1] == args@[1]@);
                            }
                            match &args[1] {
                                crate::parser::Arg::Plain(p1) => Option::Some(
                                    crate::lexer::copy_bytes(p1),
                                ),
                                crate::parser::Arg::Sub { .. } => {
                                    proof {
                                        assert(false);
                                    }
                                    Option::None
                                },
                            }
                        } else {
                            Option::None
                        };
                        Ok(CommandClass::Builtin(BuiltinCmd::Cd(arg)))
                    } else if word_is4(name, 101, 120, 105, 116) || word_is4(
                        name,
                        113,
                        117,
                        105,
                        116,
                    ) {
                        // exit | quit
                        let code: i32 = if args.len() >= 2 {
                            proof {
                                assert(argsv[1] == args@[1]@);
                            }
                            match &args[1] {
                                crate::parser::Arg::Plain(p1) => match parse_i32(p1) {
                                    Option::Some(c) => c,
                                    Option::None => 0,
                                },
                                crate::parser::Arg::Sub { .. } => {
                                    proof {
                                        assert(false);
                                    }
                                    0
                                },
                            }
                        } else {
                            0
                        };
                        Ok(CommandClass::Builtin(BuiltinCmd::Exit(code)))
                    } else if word_is4(name, 106, 111, 98, 115) {
                        // jobs
                        Ok(CommandClass::Builtin(BuiltinCmd::Jobs))
                    } else {
                        // fg | bg
                        proof {
                            assert(name@ == fg_name() || name@ == bg_name());
                        }
                        if args.len() >= 2 {
                            proof {
                                assert(argsv[1] == args@[1]@);
                            }
                            match &args[1] {
                                crate::parser::Arg::Plain(p1) => match parse_job_ref(p1) {
                                    Option::Some(nid) => {
                                        if word_is2(name, 102, 103) {
                                            Ok(CommandClass::Builtin(BuiltinCmd::Fg(nid)))
                                        } else {
                                            Ok(CommandClass::Builtin(BuiltinCmd::Bg(nid)))
                                        }
                                    },
                                    Option::None => Err(SyntaxError::BadBuiltinArgument),
                                },
                                crate::parser::Arg::Sub { .. } => {
                                    proof {
                                        assert(false);
                                    }
                                    Err(SyntaxError::BadBuiltinArgument)
                                },
                            }
                        } else {
                            Err(SyntaxError::BadBuiltinArgument)
                        }
                    }
                },
            }
        },
    }
}

/// Relies on `dirs::home_dir`: the platform's home directory for the current
/// user, if one resolves.  The answer depends on the environment, so nothing
/// is promised beyond its shape; [`cd_target_with_home`] carries the exact
/// contract for every value it may take.
#[verifier::external_body]
fn home_dir_bytes() -> (r: Option<Vec<u8>>) {
    dirs::home_dir().map(|p| p.to_string_lossy().into_owned().into_bytes())
}

/// The directory `cd` moves to, given a resolved home: the argument as
/// written when one is given, else the home directory; nothing when neither
/// exists.  `cd` with no argument succeeds exactly when a home directory is
/// resolvable.
pub fn cd_target_with_home(arg: Option<Vec<u8>>, home: Option<Vec<u8>>) -> (r: Option<Vec<u8>>)
    ensures
        arg matches Some(p) ==> r == Some::<Vec<u8>>(p),
        arg is None ==> r == home,
{
    match arg {
        Option::Some(p) => Option::Some(p),
        Option::None => home,
    }
}

/// The directory `cd` moves to: its argument, else whatever home directory
/// the platform resolves.  The driver changes the working directory to the
/// answer, or reports the failure when there is none.
pub fn cd_target(arg: Option<Vec<u8>>) -> (r: Option<Vec<u8>>)
    ensures
        arg matches Some(p) ==> r == Some::<Vec<u8>>(p),
{
    let home = home_dir_bytes();
    cd_target_with_home(arg, home)
}

} // verus!
