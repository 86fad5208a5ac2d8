//! The command-group parser: tokens in, a pipeline of command stages out.
//!
//! The token stream is split on pipe operators into groups, one group per
//! stage.  Within a group, each redirection operator consumes the word after
//! it as its file; every other word joins the argument vector.  A group that
//! is a whole parenthesized form becomes a subshell stage that re-invokes the
//! interpreter on the inner text.  A trailing background marker sets the
//! pipeline's background flag.  The parser enforces the pipeline invariants:
//! no stage is empty, only the first stage may redirect its input from a
//! file, and only the last stage may redirect its output to a file.

use vstd::prelude::*;

use crate::token::{tokens_view, SyntaxError, Token, TokenModel};

verus! {

/// One argument of a stage: a plain word, or a process substitution not yet
/// resolved to a path.
#[derive(PartialEq, Eq, Debug)]
pub enum Arg {
    Plain(Vec<u8>),
    Sub { output: bool, inner: Vec<u8> },
}

/// The model of an argument.
pub enum ArgModel {
    Plain(Seq<u8>),
    Sub { output: bool, inner: Seq<u8> },
}

impl View for Arg {
    type V = ArgModel;

    open spec fn view(&self) -> ArgModel {
        match self {
            Arg::Plain(w) => ArgModel::Plain(w@),
            Arg::Sub { output, inner } => ArgModel::Sub { output: *output, inner: inner@ },
        }
    }
}

/// The model of an argument vector.
pub open spec fn args_view(args: Seq<Arg>) -> Seq<ArgModel> {
    args.map_values(|a: Arg| a@)
}

pub broadcast proof fn lemma_args_view_len(args: Seq<Arg>)
    ensures
        #[trigger] args_view(args).len() == args.len(),
{
}

pub broadcast proof fn lemma_args_view_index(args: Seq<Arg>, i: int)
    requires
        0 <= i < args.len(),
    ensures
        #[trigger] args_view(args)[i] == args[i]@,
{
}

/// What a stage runs: a program with arguments, or a subshell that re-invokes
/// this interpreter on a script text.
#[derive(PartialEq, Eq, Debug)]
pub enum StageCmd {
    Run(Vec<Arg>),
    Subshell(Vec<u8>),
}

/// The model of [`StageCmd`].
pub enum StageCmdModel {
    Run(Seq<ArgModel>),
    Subshell(Seq<u8>),
}

impl View for StageCmd {
    type V = StageCmdModel;

    open spec fn view(&self) -> StageCmdModel {
        match self {
            StageCmd::Run(args) => StageCmdModel::Run(args_view(args@)),
            StageCmd::Subshell(s) => StageCmdModel::Subshell(s@),
        }
    }
}

/// One pipeline stage: what it runs and its file redirections.  `stdout_file`
/// carries the append flag (`>>` appends, `>` truncates).
#[derive(PartialEq, Eq, Debug)]
pub struct CommandSpec {
    pub cmd: StageCmd,
    pub stdin_file: Option<Vec<u8>>,
    pub stdout_file: Option<(Vec<u8>, bool)>,
    pub stderr_file: Option<Vec<u8>>,
}

/// The model of a stage.
pub struct StageModel {
    pub cmd: StageCmdModel,
    pub stdin_file: Option<Seq<u8>>,
    pub stdout_file: Option<(Seq<u8>, bool)>,
    pub stderr_file: Option<Seq<u8>>,
}

impl View for CommandSpec {
    type V = StageModel;

    open spec fn view(&self) -> StageModel {
        StageModel {
            cmd: self.cmd@,
            stdin_file: match self.stdin_file {
                Option::Some(p) => Option::Some(p@),
                Option::None => Option::None,
            },
            stdout_file: match self.stdout_file {
                Option::Some((p, a)) => Option::Some((p@, a)),
                Option::None => Option::None,
            },
            stderr_file: match self.stderr_file {
                Option::Some(p) => Option::Some(p@),
                Option::None => Option::None,
            },
        }
    }
}

/// A parsed pipeline: its stages in order and its disposition.
#[derive(PartialEq, Eq, Debug)]
pub struct Pipeline {
    pub stages: Vec<CommandSpec>,
    pub background: bool,
}

/// The model of a pipeline.
pub struct PipelineModel {
    pub stages: Seq<StageModel>,
    pub background: bool,
}

impl View for Pipeline {
    type V = PipelineModel;

    open spec fn view(&self) -> PipelineModel {
        PipelineModel {
            stages: self.stages@.map_values(|s: CommandSpec| s@),
            background: self.background,
        }
    }
}

/// A well-formed stage: a run stage never has an empty argument vector.
pub open spec fn stage_wf(s: StageModel) -> bool {
    match s.cmd {
        StageCmdModel::Run(args) => args.len() >= 1,
        StageCmdModel::Subshell(_) => true,
    }
}

/// The pipeline invariant: at least one stage, every stage well formed, a
/// stdin file only on the first stage, a stdout file only on the last.
pub open spec fn pipeline_wf(p: PipelineModel) -> bool {
    &&& p.stages.len() >= 1
    &&& forall|i: int| 0 <= i < p.stages.len() ==> stage_wf(#[trigger] p.stages[i])
    &&& forall|i: int| 1 <= i < p.stages.len() ==> (#[trigger] p.stages[i]).stdin_file is None
    &&& forall|i: int|
        0 <= i < p.stages.len() - 1 ==> (#[trigger] p.stages[i]).stdout_file is None
}

/// The source text a token stands for, used to rebuild a subshell's script.
pub open spec fn render_token(t: TokenModel) -> Seq<u8> {
    match t {
        TokenModel::Word(w) => w,
        TokenModel::Pipe => seq![124u8],
        TokenModel::RedirectIn => seq![60u8],
        TokenModel::RedirectOut { append } => if append {
            seq![62u8, 62u8]
        } else {
            seq![62u8]
        },
        TokenModel::RedirectErr => seq![50u8, 62u8],
        TokenModel::ProcessSub { output, inner } => (
        if output {
            seq![62u8]
        } else {
            seq![60u8]
        }) + seq![40u8] + inner + seq![41u8],
        TokenModel::GroupOpen => seq![40u8],
        TokenModel::GroupClose => seq![41u8],
        TokenModel::Background => seq![38u8],
        TokenModel::Separator => seq![59u8],
    }
}

/// The tokens of a subshell body, rendered back to text with single spaces
/// between them.
pub open spec fn render_tokens(ts: Seq<TokenModel>) -> Seq<u8>
    decreases ts.len(),
{
    if ts.len() == 0 {
        Seq::empty()
    } else if ts.len() == 1 {
        render_token(ts[0])
    } else {
        render_token(ts[0]) + seq![32u8] + render_tokens(ts.drop_first())
    }
}

/// A trailing background marker, stripped and remembered.
pub open spec fn strip_background(ts: Seq<TokenModel>) -> (Seq<TokenModel>, bool) {
    if ts.len() > 0 && ts.last() == TokenModel::Background {
        (ts.drop_last(), true)
    } else {
        (ts, false)
    }
}

/// The token stream split on pipe operators.  The result always holds one
/// group more than there are pipes; an empty group marks a dangling pipe.
pub open spec fn split_pipes(ts: Seq<TokenModel>) -> Seq<Seq<TokenModel>>
    decreases ts.len(),
{
    if ts.len() == 0 {
        seq![Seq::<TokenModel>::empty()]
    } else if ts[0] == TokenModel::Pipe {
        seq![Seq::<TokenModel>::empty()] + split_pipes(ts.drop_first())
    } else {
        let r = split_pipes(ts.drop_first());
        seq![seq![ts[0]] + r[0]] + r.drop_first()
    }
}

pub proof fn lemma_split_pipes_len(ts: Seq<TokenModel>)
    ensures
        split_pipes(ts).len() >= 1,
    decreases ts.len(),
{
    if ts.len() == 0 {
    } else {
        lemma_split_pipes_len(ts.drop_first());
    }
}

/// The fold of one group into a stage, one token at a time from index `i`.
/// Each redirection operator takes the word after it; other words join the
/// argument vector; a group that ends with no argument at all is an error.
pub open spec fn parse_words(
    g: Seq<TokenModel>,
    i: int,
    args: Seq<ArgModel>,
    stin: Option<Seq<u8>>,
    stout: Option<(Seq<u8>, bool)>,
    sterr: Option<Seq<u8>>,
) -> Result<StageModel, SyntaxError>
    decreases g.len() - i,
{
    if i < 0 || i >= g.len() {
        if args.len() == 0 {
            Err(SyntaxError::EmptyCommand)
        } else {
            Ok(
                StageModel {
                    cmd: StageCmdModel::Run(args),
                    stdin_file: stin,
                    stdout_file: stout,
                    stderr_file: sterr,
                },
            )
        }
    } else {
        match g[i] {
            TokenModel::Word(w) => parse_words(
                g,
                i + 1,
                args.push(ArgModel::Plain(w)),
                stin,
                stout,
                sterr,
            ),
            TokenModel::ProcessSub { output, inner } => parse_words(
                g,
                i + 1,
                args.push(ArgModel::Sub { output, inner }),
                stin,
                stout,
                sterr,
            ),
            TokenModel::RedirectIn => {
                if i + 1 < g.len() && g[i + 1] is Word {
                    if stin is Some {
                        Err(SyntaxError::DuplicateRedirect)
                    } else {
                        parse_words(g, i + 2, args, Option::Some(g[i + 1]->Word_0), stout, sterr)
                    }
                } else {
                    Err(SyntaxError::MissingRedirectTarget)
                }
            },
            TokenModel::RedirectOut { append } => {
                if i + 1 < g.len() && g[i + 1] is Word {
                    if stout is Some {
                        Err(SyntaxError::DuplicateRedirect)
                    } else {
                        parse_words(
                            g,
                            i + 2,
                            args,
                            stin,
                            Option::Some((g[i + 1]->Word_0, append)),
                            sterr,
                        )
                    }
                } else {
                    Err(SyntaxError::MissingRedirectTarget)
                }
            },
            TokenModel::RedirectErr => {
                if i + 1 < g.len() && g[i + 1] is Word {
                    if sterr is Some {
                        Err(SyntaxError::DuplicateRedirect)
                    } else {
                        parse_words(g, i + 2, args, stin, stout, Option::Some(g[i + 1]->Word_0))
                    }
                } else {
                    Err(SyntaxError::MissingRedirectTarget)
                }
            },
            TokenModel::GroupOpen => Err(SyntaxError::StrayParen),
            TokenModel::GroupClose => Err(SyntaxError::StrayParen),
            TokenModel::Background => Err(SyntaxError::BackgroundNotLast),
            TokenModel::Separator => Err(SyntaxError::UnexpectedSeparator),
            TokenModel::Pipe => Err(SyntaxError::DanglingPipe),
        }
    }
}

/// One group turned into a stage: an empty group is a dangling pipe, a whole
/// parenthesized group is a subshell, anything else folds word by word.
pub open spec fn parse_group(g: Seq<TokenModel>) -> Result<StageModel, SyntaxError> {
    if g.len() == 0 {
        Err(SyntaxError::DanglingPipe)
    } else if g.len() >= 2 && g[0] == TokenModel::GroupOpen && g.last() == TokenModel::GroupClose {
        Ok(
            StageModel {
                cmd: StageCmdModel::Subshell(render_tokens(g.subrange(1, g.len() - 1))),
                stdin_file: Option::None,
                stdout_file: Option::None,
                stderr_file: Option::None,
            },
        )
    } else {
        parse_words(g, 0, Seq::empty(), Option::None, Option::None, Option::None)
    }
}

/// All groups turned into stages, left to right, stopping at the first error.
pub open spec fn parse_groups(gs: Seq<Seq<TokenModel>>) -> Result<Seq<StageModel>, SyntaxError>
    decreases gs.len(),
{
    if gs.len() == 0 {
        Ok(Seq::empty())
    } else {
        match parse_group(gs[0]) {
            Err(e) => Err(e),
            Ok(st) => match parse_groups(gs.drop_first()) {
                Err(e) => Err(e),
                Ok(rest) => Ok(seq![st] + rest),
            },
        }
    }
}

/// The first positional violation at or after stage `i`: a stdin file off
/// the first stage, or a stdout file off the last.
pub open spec fn position_error(stages: Seq<StageModel>, i: int) -> Option<SyntaxError>
    decreases stages.len() - i,
{
    if i < 0 || i >= stages.len() {
        Option::None
    } else if i > 0 && stages[i].stdin_file is Some {
        Option::Some(SyntaxError::StdinNotFirst)
    } else if i < stages.len() - 1 && stages[i].stdout_file is Some {
        Option::Some(SyntaxError::StdoutNotLast)
    } else {
        position_error(stages, i + 1)
    }
}

/// What [`parse_pipeline`] returns: strip the background marker, split on
/// pipes, fold each group into a stage, and hold the stages to the
/// positional rules.
pub open spec fn parse_pipeline_spec(ts: Seq<TokenModel>) -> Result<PipelineModel, SyntaxError> {
    let (body, bg) = strip_background(ts);
    if body.len() == 0 {
        Err(SyntaxError::EmptyCommand)
    } else {
        match parse_groups(split_pipes(body)) {
            Err(e) => Err(e),
            Ok(stages) => match position_error(stages, 0) {
                Option::Some(e) => Err(e),
                Option::None => Ok(PipelineModel { stages, background: bg }),
            },
        }
    }
}

pub proof fn lemma_parse_words_wf(
    g: Seq<TokenModel>,
    i: int,
    args: Seq<ArgModel>,
    stin: Option<Seq<u8>>,
    stout: Option<(Seq<u8>, bool)>,
    sterr: Option<Seq<u8>>,
)
    ensures
        parse_words(g, i, args, stin, stout, sterr) matches Ok(st) ==> stage_wf(st),
    decreases g.len() - i,
{
    if i < 0 || i >= g.len() {
    } else {
        match g[i] {
            TokenModel::Word(w) => lemma_parse_words_wf(
                g,
                i + 1,
                args.push(ArgModel::Plain(w)),
                stin,
                stout,
                sterr,
            ),
            TokenModel::ProcessSub { output, inner } => lemma_parse_words_wf(
                g,
                i + 1,
                args.push(ArgModel::Sub { output, inner }),
                stin,
                stout,
                sterr,
            ),
            TokenModel::RedirectIn => {
                if i + 1 < g.len() && g[i + 1] is Word && stin is None {
                    lemma_parse_words_wf(
                        g,
                        i + 2,
                        args,
                        Option::Some(g[i + 1]->Word_0),
                        stout,
                        sterr,
                    );
                }
            },
            TokenModel::RedirectOut { append } => {
                if i + 1 < g.len() && g[i + 1] is Word && stout is None {
                    lemma_parse_words_wf(
                        g,
                        i + 2,
                        args,
                        stin,
                        Option::Some((g[i + 1]->Word_0, append)),
                        sterr,
                    );
                }
            },
            TokenModel::RedirectErr => {
                if i + 1 < g.len() && g[i + 1] is Word && sterr is None {
                    lemma_parse_words_wf(
                        g,
                        i + 2,
                        args,
                        stin,
                        stout,
                        Option::Some(g[i + 1]->Word_0),
                    );
                }
            },
            _ => {},
        }
    }
}

pub proof fn lemma_parse_groups_wf(gs: Seq<Seq<TokenModel>>)
    ensures
        parse_groups(gs) matches Ok(stages) ==> {
            &&& stages.len() == gs.len()
            &&& forall|i: int| 0 <= i < stages.len() ==> stage_wf(#[trigger] stages[i])
        },
    decreases gs.len(),
{
    if gs.len() == 0 {
    } else {
        lemma_parse_words_wf(gs[0], 0, Seq::empty(), Option::None, Option::None, Option::None);
        lemma_parse_groups_wf(gs.drop_first());
    }
}

pub proof fn lemma_position_ok(stages: Seq<StageModel>, i: int)
    requires
        0 <= i,
        position_error(stages, i) is None,
    ensures
        forall|j: int|
            i <= j < stages.len() && j > 0 ==> (#[trigger] stages[j]).stdin_file is None,
        forall|j: int|
            i <= j < stages.len() - 1 && j >= 0 ==> (#[trigger] stages[j]).stdout_file is None,
    decreases stages.len() - i,
{
    if i < 0 || i >= stages.len() {
    } else {
        lemma_position_ok(stages, i + 1);
    }
}

/// Every successful parse satisfies the pipeline invariant: this is the shape
/// every later phase relies on.
pub proof fn lemma_parse_pipeline_wf(ts: Seq<TokenModel>)
    ensures
        parse_pipeline_spec(ts) matches Ok(p) ==> pipeline_wf(p),
{
    let (body, bg) = strip_background(ts);
    if body.len() == 0 {
    } else {
        lemma_split_pipes_len(body);
        lemma_parse_groups_wf(split_pipes(body));
        match parse_groups(split_pipes(body)) {
            Err(_) => {},
            Ok(stages) => {
                if position_error(stages, 0) is None {
                    lemma_position_ok(stages, 0);
                }
            },
        }
    }
}

/// The model of a sequence of token groups.
pub open spec fn groups_view(gs: Seq<Vec<Token>>) -> Seq<Seq<TokenModel>> {
    gs.map_values(|g: Vec<Token>| tokens_view(g@))
}

pub broadcast proof fn lemma_groups_view_len(gs: Seq<Vec<Token>>)
    ensures
        #[trigger] groups_view(gs).len() == gs.len(),
{
}

pub broadcast proof fn lemma_groups_view_index(gs: Seq<Vec<Token>>, i: int)
    requires
        0 <= i < gs.len(),
    ensures
        #[trigger] groups_view(gs)[i] == tokens_view(gs[i]@),
{
}

/// The model of an optional byte vector.
pub open spec fn opt_bytes_view(o: Option<Vec<u8>>) -> Option<Seq<u8>> {
    match o {
        Option::Some(v) => Option::Some(v@),
        Option::None => Option::None,
    }
}

/// The model of an optional stdout redirection.
pub open spec fn opt_out_view(o: Option<(Vec<u8>, bool)>) -> Option<(Seq<u8>, bool)> {
    match o {
        Option::Some((v, a)) => Option::Some((v@, a)),
        Option::None => Option::None,
    }
}

/// Executable rendering of one token back to source text.
fn render_token_x(t: Token) -> (r: Vec<u8>)
    ensures
        r@ == render_token(t@),
{
    match t {
        Token::Word(w) => w,
        Token::Pipe => {
            let mut v: Vec<u8> = Vec::new();
            v.push(124);
            proof {
                assert(v@ =~= seq![124u8]);
            }
            v
        },
        Token::RedirectIn => {
            let mut v: Vec<u8> = Vec::new();
            v.push(60);
            proof {
                assert(v@ =~= seq![60u8]);
            }
            v
        },
        Token::RedirectOut { append } => {
            let mut v: Vec<u8> = Vec::new();
            v.push(62);
            if append {
                v.push(62);
                proof {
                    assert(v@ =~= seq![62u8, 62u8]);
                }
            } else {
                proof {
                    assert(v@ =~= seq![62u8]);
                }
            }
            v
        },
        Token::RedirectErr => {
            let mut v: Vec<u8> = Vec::new();
            v.push(50);
            v.push(62);
            proof {
                assert(v@ =~= seq![50u8, 62u8]);
            }
            v
        },
        Token::ProcessSub { output, inner } => {
            let mut v: Vec<u8> = Vec::new();
            if output {
                v.push(62);
            } else {
                v.push(60);
            }
            v.push(40);
            crate::lexer::push_all(&mut v, &inner);
            v.push(41);
            proof {
                assert(v@ =~= (if output {
                    seq![62u8]
                } else {
                    seq![60u8]
                }) + seq![40u8] + inner@ + seq![41u8]);
            }
            v
        },
        Token::GroupOpen => {
            let mut v: Vec<u8> = Vec::new();
            v.push(40);
            proof {
                assert(v@ =~= seq![40u8]);
            }
            v
        },
        Token::GroupClose => {
            let mut v: Vec<u8> = Vec::new();
            v.push(41);
            proof {
                assert(v@ =~= seq![41u8]);
            }
            v
        },
        Token::Background => {
            let mut v: Vec<u8> = Vec::new();
            v.push(38);
            proof {
                assert(v@ =~= seq![38u8]);
            }
            v
        },
        Token::Separator => {
            let mut v: Vec<u8> = Vec::new();
            v.push(59);
            proof {
                assert(v@ =~= seq![59u8]);
            }
            v
        },
    }
}

/// Executable rendering of a token sequence.  See [`render_tokens`].
fn render_tokens_x(ts: Vec<Token>) -> (r: Vec<u8>)
    ensures
        r@ == render_tokens(tokens_view(ts@)),
{
    broadcast use crate::token::lemma_tokens_view_len, crate::token::lemma_tokens_view_index;

    let ghost orig = tokens_view(ts@);
    let mut ts = ts;
    let mut out: Vec<u8> = Vec::new();
    proof {
        assert(Seq::<u8>::empty() + render_tokens(orig) =~= render_tokens(orig));
    }
    while ts.len() > 0
        invariant
            render_tokens(orig) == out@ + render_tokens(tokens_view(ts@)),
        decreases ts@.len(),
    {
        let ghost rem = tokens_view(ts@);
        let ghost prev = out@;
        let t = ts.remove(0);
        proof {
            assert(rem[0] == t@);
            assert(tokens_view(ts@) =~= rem.drop_first());
        }
        let piece = render_token_x(t);
        crate::lexer::push_all(&mut out, &piece);
        if ts.len() > 0 {
            out.push(32);
            proof {
                assert(rem.len() >= 2);
                assert(prev + (render_token(rem[0]) + seq![32u8] + render_tokens(rem.drop_first()))
                    =~= out@ + render_tokens(rem.drop_first()));
            }
        } else {
            proof {
                assert(rem.len() == 1);
                assert(prev + render_token(rem[0]) =~= out@);
                assert(out@ + render_tokens(Seq::<TokenModel>::empty()) =~= out@);
            }
        }
    }
    proof {
        assert(out@ + render_tokens(tokens_view(ts@)) =~= out@);
    }
    out
}

/// The token stream split on command separators, empty runs included.
pub open spec fn split_separators(ts: Seq<TokenModel>) -> Seq<Seq<TokenModel>>
    decreases ts.len(),
{
    if ts.len() == 0 {
        seq![Seq::<TokenModel>::empty()]
    } else if ts[0] == TokenModel::Separator {
        seq![Seq::<TokenModel>::empty()] + split_separators(ts.drop_first())
    } else {
        let r = split_separators(ts.drop_first());
        seq![seq![ts[0]] + r[0]] + r.drop_first()
    }
}

pub proof fn lemma_split_separators_len(ts: Seq<TokenModel>)
    ensures
        split_separators(ts).len() >= 1,
    decreases ts.len(),
{
    if ts.len() == 0 {
    } else {
        lemma_split_separators_len(ts.drop_first());
    }
}

/// The non-empty groups of a split, in order.
pub open spec fn nonempty_groups(gs: Seq<Seq<TokenModel>>) -> Seq<Seq<TokenModel>>
    decreases gs.len(),
{
    if gs.len() == 0 {
        Seq::empty()
    } else if gs[0].len() == 0 {
        nonempty_groups(gs.drop_first())
    } else {
        seq![gs[0]] + nonempty_groups(gs.drop_first())
    }
}

/// What [`split_commands`] returns: one command per separator-free run of
/// tokens, empty runs dropped.  Each segment is then a pipeline of its own;
/// what one segment holds never reaches another.
pub open spec fn command_segments(ts: Seq<TokenModel>) -> Seq<Seq<TokenModel>> {
    nonempty_groups(split_separators(ts))
}

/// Splits one lexed line into its commands on `;` separators.  An empty
/// command between separators is dropped, not an error.
pub fn split_commands(tokens: Vec<Token>) -> (r: Vec<Vec<Token>>)
    ensures
        groups_view(r@) == command_segments(tokens_view(tokens@)),
{
    broadcast use crate::token::lemma_tokens_view_len, crate::token::lemma_tokens_view_index,
        lemma_groups_view_len, lemma_groups_view_index;

    let ghost whole = tokens_view(tokens@);
    let mut toks = tokens;
    let mut done: Vec<Vec<Token>> = Vec::new();
    let mut cur: Vec<Token> = Vec::new();
    proof {
        lemma_split_separators_len(whole);
        assert(seq![Seq::<TokenModel>::empty() + split_separators(whole)[0]] + split_separators(
            whole,
        ).drop_first() =~= split_separators(whole));
        assert(groups_view(done@) + nonempty_groups(split_separators(whole)) =~= nonempty_groups(
            split_separators(whole),
        ));
    }
    while toks.len() > 0
        invariant
            command_segments(whole) == groups_view(done@) + nonempty_groups(
                seq![tokens_view(cur@) + split_separators(tokens_view(toks@))[0]]
                    + split_separators(tokens_view(toks@)).drop_first(),
            ),
        decreases toks@.len(),
    {
        let ghost rem = tokens_view(toks@);
        let ghost curv = tokens_view(cur@);
        let ghost donev = groups_view(done@);
        let ghost gseq = toks@;
        let t = toks.remove(0);
        proof {
            assert(tokens_view(gseq)[0] == gseq[0]@);
            assert(t@ == rem[0]);
            assert forall|k: int| 0 <= k < toks@.len() implies #[trigger] tokens_view(toks@)[k]
                == rem.drop_first()[k] by {
                assert(toks@[k] == gseq[k + 1]);
                assert(tokens_view(gseq)[k + 1] == gseq[k + 1]@);
            }
            assert(tokens_view(toks@) =~= rem.drop_first());
            lemma_split_separators_len(rem.drop_first());
        }
        match t {
            Token::Separator => {
                if cur.len() > 0 {
                    done.push(cur);
                    cur = Vec::new();
                }
                proof {
                    let s = split_separators(rem.drop_first());
                    assert(split_separators(rem) =~= seq![Seq::<TokenModel>::empty()] + s);
                    assert(curv + split_separators(rem)[0] =~= curv);
                    assert(split_separators(rem).drop_first() =~= s);
                    assert(seq![curv + split_separators(rem)[0]] + split_separators(
                        rem,
                    ).drop_first() =~= seq![curv] + s);
                    assert((seq![curv] + s).drop_first() =~= s);
                    assert((seq![curv] + s)[0] == curv);
                    assert(seq![Seq::<TokenModel>::empty() + s[0]] + s.drop_first() =~= s);
                    assert(tokens_view(cur@) =~= Seq::<TokenModel>::empty());
                    if curv.len() == 0 {
                        assert(nonempty_groups(seq![curv] + s) == nonempty_groups(s));
                    } else {
                        assert(groups_view(done@) =~= donev.push(curv));
                        assert(nonempty_groups(seq![curv] + s) == seq![curv] + nonempty_groups(s));
                        assert(donev + (seq![curv] + nonempty_groups(s)) =~= donev.push(curv)
                            + nonempty_groups(s));
                    }
                }
            },
            other => {
                let ghost ov = other@;
                cur.push(other);
                proof {
                    let s = split_separators(rem.drop_first());
                    assert(split_separators(rem) =~= seq![seq![ov] + s[0]] + s.drop_first());
                    assert(split_separators(rem)[0] == seq![ov] + s[0]);
                    assert(split_separators(rem).drop_first() =~= s.drop_first());
                    assert(tokens_view(cur@) =~= curv.push(ov));
                    assert(curv + (seq![ov] + s[0]) =~= curv.push(ov) + s[0]);
                    assert(seq![curv + split_separators(rem)[0]] + split_separators(
                        rem,
                    ).drop_first() =~= seq![curv.push(ov) + s[0]] + s.drop_first());
                }
            },
        }
    }
    let ghost curv = tokens_view(cur@);
    let ghost donev = groups_view(done@);
    proof {
        assert(split_separators(tokens_view(toks@)) =~= seq![Seq::<TokenModel>::empty()]);
        assert(curv + split_separators(tokens_view(toks@))[0] =~= curv);
        assert(seq![curv + split_separators(tokens_view(toks@))[0]] + split_separators(
            tokens_view(toks@),
        ).drop_first() =~= seq![curv]);
        assert((seq![curv]).drop_first() =~= Seq::<Seq<TokenModel>>::empty());
        assert(nonempty_groups(Seq::<Seq<TokenModel>>::empty()) == Seq::<Seq<TokenModel>>::empty());
    }
    if cur.len() > 0 {
        done.push(cur);
        proof {
            assert(nonempty_groups(seq![curv]) =~= seq![curv]);
            assert(groups_view(done@) =~= donev.push(curv));
            assert(donev + seq![curv] =~= donev.push(curv));
        }
    } else {
        proof {
            assert(nonempty_groups(seq![curv]) =~= Seq::<Seq<TokenModel>>::empty());
            assert(donev + Seq::<Seq<TokenModel>>::empty() =~= donev);
        }
    }
    done
}

/// The model of a stage vector.
pub open spec fn stages_view(s: Seq<CommandSpec>) -> Seq<StageModel> {
    s.map_values(|c: CommandSpec| c@)
}

pub broadcast proof fn lemma_stages_view_len(s: Seq<CommandSpec>)
    ensures
        #[trigger] stages_view(s).len() == s.len(),
{
}

pub broadcast proof fn lemma_stages_view_index(s: Seq<CommandSpec>, i: int)
    requires
        0 <= i < s.len(),
    ensures
        #[trigger] stages_view(s)[i] == s[i]@,
{
}

/// Executable split on pipe operators.  See [`split_pipes`].
fn split_on_pipes(tokens: Vec<Token>) -> (r: Vec<Vec<Token>>)
    ensures
        groups_view(r@) == split_pipes(tokens_view(tokens@)),
{
    broadcast use crate::token::lemma_tokens_view_len, crate::token::lemma_tokens_view_index,
        lemma_args_view_len, lemma_args_view_index, lemma_stages_view_len, lemma_stages_view_index,
        lemma_groups_view_len, lemma_groups_view_index;

    let ghost whole = tokens_view(tokens@);
    let mut toks = tokens;
    let mut done: Vec<Vec<Token>> = Vec::new();
    let mut cur: Vec<Token> = Vec::new();
    proof {
        lemma_split_pipes_len(whole);
        assert(seq![Seq::<TokenModel>::empty() + split_pipes(whole)[0]] + split_pipes(
            whole,
        ).drop_first() =~= split_pipes(whole));
        assert(groups_view(done@) + (seq![tokens_view(cur@) + split_pipes(tokens_view(toks@))[0]]
            + split_pipes(tokens_view(toks@)).drop_first()) =~= split_pipes(whole));
    }
    while toks.len() > 0
        invariant
            split_pipes(whole) == groups_view(done@) + (seq![
                tokens_view(cur@) + split_pipes(tokens_view(toks@))[0],
            ] + split_pipes(tokens_view(toks@)).drop_first()),
        decreases toks@.len(),
    {
        let ghost rem = tokens_view(toks@);
        let ghost curv = tokens_view(cur@);
        let ghost donev = groups_view(done@);
        let t = toks.remove(0);
        proof {
            assert(rem[0] == t@);
            assert(tokens_view(toks@) =~= rem.drop_first());
            lemma_split_pipes_len(rem.drop_first());
        }
        match t {
            Token::Pipe => {
                done.push(cur);
                cur = Vec::new();
                proof {
                    let s = split_pipes(rem.drop_first());
                    assert(groups_view(done@) =~= donev.push(curv));
                    assert(curv + split_pipes(rem)[0] =~= curv);
                    assert(seq![Seq::<TokenModel>::empty() + s[0]] + s.drop_first() =~= s);
                    assert(donev + (seq![curv + split_pipes(rem)[0]] + split_pipes(
                        rem,
                    ).drop_first()) =~= donev.push(curv) + (seq![
                        Seq::<TokenModel>::empty() + s[0],
                    ] + s.drop_first()));
                }
            },
            other => {
                let ghost ov = other@;
                cur.push(other);
                proof {
                    let s = split_pipes(rem.drop_first());
                    assert(tokens_view(cur@) =~= curv.push(ov));
                    assert(curv + (seq![ov] + s[0]) =~= curv.push(ov) + s[0]);
                    assert(donev + (seq![curv + split_pipes(rem)[0]] + split_pipes(
                        rem,
                    ).drop_first()) =~= donev + (seq![curv.push(ov) + s[0]] + s.drop_first()));
                }
            },
        }
    }
    let ghost curv = tokens_view(cur@);
    let ghost donev = groups_view(done@);
    done.push(cur);
    proof {
        assert(curv + split_pipes(Seq::<TokenModel>::empty())[0] =~= curv);
        assert(groups_view(done@) =~= donev.push(curv));
        assert(donev + (seq![curv] + Seq::<Seq<TokenModel>>::empty()) =~= donev.push(curv));
        assert(groups_view(done@) =~= split_pipes(whole));
    }
    done
}

/// Executable fold of one group into a stage.  See [`parse_group`].
fn parse_group_x(g: Vec<Token>) -> (r: Result<CommandSpec, SyntaxError>)
    ensures
        r matches Ok(st) ==> parse_group(tokens_view(g@)) == Ok::<StageModel, SyntaxError>(st@),
        r matches Err(e) ==> parse_group(tokens_view(g@)) == Err::<StageModel, SyntaxError>(e),
{
    broadcast use crate::token::lemma_tokens_view_len, crate::token::lemma_tokens_view_index,
        lemma_args_view_len, lemma_args_view_index, lemma_stages_view_len, lemma_stages_view_index,
        lemma_groups_view_len, lemma_groups_view_index;

    let ghost orig = tokens_view(g@);
    if g.len() == 0 {
        return Err(SyntaxError::DanglingPipe);
    }
    if g.len() >= 2 && matches!(g[0], Token::GroupOpen) && matches!(
        g[g.len() - 1],
        Token::GroupClose,
    ) {
        let mut g = g;
        let _open = g.remove(0);
        let _close = g.pop();
        proof {
            assert(tokens_view(g@) =~= orig.subrange(1, orig.len() - 1));
        }
        let script = render_tokens_x(g);
        return Ok(
            CommandSpec {
                cmd: StageCmd::Subshell(script),
                stdin_file: Option::None,
                stdout_file: Option::None,
                stderr_file: Option::None,
            },
        );
    }
    proof {
        assert(!(orig.len() >= 2 && orig[0] == TokenModel::GroupOpen && orig.last()
            == TokenModel::GroupClose));
    }
    let mut rest = g;
    let mut args: Vec<Arg> = Vec::new();
    let mut stin: Option<Vec<u8>> = Option::None;
    let mut stout: Option<(Vec<u8>, bool)> = Option::None;
    let mut sterr: Option<Vec<u8>> = Option::None;
    proof {
        assert(tokens_view(rest@) =~= orig.skip(0));
        assert(args_view(args@) =~= Seq::<ArgModel>::empty());
        assert(parse_group(orig) == parse_words(
            orig,
            0,
            Seq::empty(),
            Option::None,
            Option::None,
            Option::None,
        ));
    }
    while rest.len() > 0
        invariant
            orig == tokens_view(g@),
            parse_group(orig) == parse_words(
                orig,
                0,
                Seq::empty(),
                Option::None,
                Option::None,
                Option::None,
            ),
            tokens_view(rest@) == orig.skip(orig.len() - rest@.len()),
            rest@.len() <= orig.len(),
            parse_words(
                orig,
                orig.len() - rest@.len(),
                args_view(args@),
                opt_bytes_view(stin),
                opt_out_view(stout),
                opt_bytes_view(sterr),
            ) == parse_words(
                orig,
                0,
                Seq::empty(),
                Option::None,
                Option::None,
                Option::None,
            ),
        decreases rest@.len(),
    {
        let ghost i = orig.len() - rest@.len();
        let ghost argsv = args_view(args@);
        let ghost gseq = rest@;
        let t = rest.remove(0);
        proof {
            assert(tokens_view(gseq)[0] == gseq[0]@);
            assert(orig.skip(i)[0] == orig[i]);
            assert(t@ == orig[i]);
            assert forall|k: int| 0 <= k < rest@.len() implies #[trigger] tokens_view(rest@)[k]
                == orig.skip(i + 1)[k] by {
                assert(rest@[k] == gseq[k + 1]);
                assert(tokens_view(gseq)[k + 1] == gseq[k + 1]@);
            }
            assert(tokens_view(rest@) =~= orig.skip(i + 1));
        }
        match t {
            Token::Word(w) => {
                let ghost wv = w@;
                args.push(Arg::Plain(w));
                proof {
                    assert(args_view(args@) =~= argsv.push(ArgModel::Plain(wv)));
                }
            },
            Token::ProcessSub { output, inner } => {
                let ghost iv = inner@;
                args.push(Arg::Sub { output, inner });
                proof {
                    assert(args_view(args@) =~= argsv.push(ArgModel::Sub { output, inner: iv }));
                }
            },
            Token::RedirectIn => {
                proof {
                    if rest@.len() > 0 {
                        assert(tokens_view(rest@)[0] == rest@[0]@);
                        assert(orig.skip(i + 1)[0] == orig[i + 1]);
                    }
                }
                if rest.len() > 0 && matches!(rest[0], Token::Word(_)) {
                    if stin.is_some() {
                        return Err(SyntaxError::DuplicateRedirect);
                    }
                    let ghost gseq2 = rest@;
                    let nt = rest.remove(0);
                    proof {
                        assert(tokens_view(gseq2)[0] == gseq2[0]@);
                        assert(orig.skip(i + 1)[0] == orig[i + 1]);
                        assert(nt@ == orig[i + 1]);
                        assert forall|k: int| 0 <= k < rest@.len() implies #[trigger] tokens_view(
                            rest@,
                        )[k] == orig.skip(i + 2)[k] by {
                            assert(rest@[k] == gseq2[k + 1]);
                            assert(tokens_view(gseq2)[k + 1] == gseq2[k + 1]@);
                        }
                        assert(tokens_view(rest@) =~= orig.skip(i + 2));
                    }
                    match nt {
                        Token::Word(w) => {
                            stin = Option::Some(w);
                        },
                        _ => {
                            proof {
                                assert(false);
                            }
                        },
                    }
                } else {
                    return Err(SyntaxError::MissingRedirectTarget);
                }
            },
            Token::RedirectOut { append } => {
                proof {
                    if rest@.len() > 0 {
                        assert(tokens_view(rest@)[0] == rest@[0]@);
                        assert(orig.skip(i + 1)[0] == orig[i + 1]);
                    }
                }
                if rest.len() > 0 && matches!(rest[0], Token::Word(_)) {
                    if stout.is_some() {
                        return Err(SyntaxError::DuplicateRedirect);
                    }
                    let ghost gseq2 = rest@;
                    let nt = rest.remove(0);
                    proof {
                        assert(tokens_view(gseq2)[0] == gseq2[0]@);
                        assert(orig.skip(i + 1)[0] == orig[i + 1]);
                        assert(nt@ == orig[i + 1]);
                        assert forall|k: int| 0 <= k < rest@.len() implies #[trigger] tokens_view(
                            rest@,
                        )[k] == orig.skip(i + 2)[k] by {
                            assert(rest@[k] == gseq2[k + 1]);
                            assert(tokens_view(gseq2)[k + 1] == gseq2[k + 1]@);
                        }
                        assert(tokens_view(rest@) =~= orig.skip(i + 2));
                    }
                    match nt {
                        Token::Word(w) => {
                            stout = Option::Some((w, append));
                        },
                        _ => {
                            proof {
                                assert(false);
                            }
                        },
                    }
                } else {
                    return Err(SyntaxError::MissingRedirectTarget);
                }
            },
            Token::RedirectErr => {
                proof {
                    if rest@.len() > 0 {
                        assert(tokens_view(rest@)[0] == rest@[0]@);
                        assert(orig.skip(i + 1)[0] == orig[i + 1]);
                    }
                }
                if rest.len() > 0 && matches!(rest[0], Token::Word(_)) {
                    if sterr.is_some() {
                        return Err(SyntaxError::DuplicateRedirect);
                    }
                    let ghost gseq2 = rest@;
                    let nt = rest.remove(0);
                    proof {
                        assert(tokens_view(gseq2)[0] == gseq2[0]@);
                        assert(orig.skip(i + 1)[0] == orig[i + 1]);
                        assert(nt@ == orig[i + 1]);
                        assert forall|k: int| 0 <= k < rest@.len() implies #[trigger] tokens_view(
                            rest@,
                        )[k] == orig.skip(i + 2)[k] by {
                            assert(rest@[k] == gseq2[k + 1]);
                            assert(tokens_view(gseq2)[k + 1] == gseq2[k + 1]@);
                        }
                        assert(tokens_view(rest@) =~= orig.skip(i + 2));
                    }
                    match nt {
                        Token::Word(w) => {
                            sterr = Option::Some(w);
                        },
                        _ => {
                            proof {
                                assert(false);
                            }
                        },
                    }
                } else {
                    return Err(SyntaxError::MissingRedirectTarget);
                }
            },
            Token::GroupOpen => {
                return Err(SyntaxError::StrayParen);
            },
            Token::GroupClose => {
                return Err(SyntaxError::StrayParen);
            },
            Token::Background => {
                return Err(SyntaxError::BackgroundNotLast);
            },
            Token::Separator => {
                return Err(SyntaxError::UnexpectedSeparator);
            },
            Token::Pipe => {
                return Err(SyntaxError::DanglingPipe);
            },
        }
    }
    if args.len() == 0 {
        return Err(SyntaxError::EmptyCommand);
    }
    Ok(CommandSpec { cmd: StageCmd::Run(args), stdin_file: stin, stdout_file: stout, stderr_file: sterr })
}

/// The parser.  Strips a trailing background marker, splits on pipes, folds
/// each group into a stage, and enforces the positional redirection rules.
/// The result is pinned to [`parse_pipeline_spec`]; every pipeline handed
/// back satisfies [`pipeline_wf`].
pub fn parse_pipeline(tokens: Vec<Token>) -> (r: Result<Pipeline, SyntaxError>)
    ensures
        r matches Ok(p) ==> parse_pipeline_spec(tokens_view(tokens@)) == Ok::<
            PipelineModel,
            SyntaxError,
        >(p@) && pipeline_wf(p@),
        r matches Err(e) ==> parse_pipeline_spec(tokens_view(tokens@)) == Err::<
            PipelineModel,
            SyntaxError,
        >(e),
{
    broadcast use crate::token::lemma_tokens_view_len, crate::token::lemma_tokens_view_index,
        lemma_args_view_len, lemma_args_view_index, lemma_stages_view_len, lemma_stages_view_index,
        lemma_groups_view_len, lemma_groups_view_index;

    let ghost tv = tokens_view(tokens@);
    proof {
        lemma_parse_pipeline_wf(tv);
    }
    let mut toks = tokens;
    let mut background = false;
    if toks.len() > 0 && matches!(toks[toks.len() - 1], Token::Background) {
        let _mark = toks.pop();
        background = true;
        proof {
            assert(tv.last() == TokenModel::Background);
            assert(tokens_view(toks@) =~= tv.drop_last());
        }
    } else {
        proof {
            if tv.len() > 0 {
                assert(tv.last() == tokens@[tokens@.len() - 1]@);
            }
            assert(tokens_view(toks@) =~= tv);
        }
    }
    let ghost body = strip_background(tv).0;
    proof {
        assert(tokens_view(toks@) == body);
        assert(background == strip_background(tv).1);
    }
    if toks.len() == 0 {
        return Err(SyntaxError::EmptyCommand);
    }
    let mut groups = split_on_pipes(toks);
    let ghost gsv = groups_view(groups@);
    let mut stages: Vec<CommandSpec> = Vec::new();
    proof {
        assert(stages_view(stages@) =~= Seq::<StageModel>::empty());
        assert(Seq::<StageModel>::empty() + parse_groups(gsv)->Ok_0 =~= parse_groups(
            gsv,
        )->Ok_0);
    }
    while groups.len() > 0
        invariant
            tv == tokens_view(tokens@),
            background == strip_background(tv).1,
            body == strip_background(tv).0,
            body.len() > 0,
            gsv == split_pipes(body),
            (match parse_groups(groups_view(groups@)) {
                Ok(rest) => parse_groups(gsv) == Ok::<Seq<StageModel>, SyntaxError>(
                    stages_view(stages@) + rest,
                ),
                Err(e) => parse_groups(gsv) == Err::<Seq<StageModel>, SyntaxError>(e),
            }),
        decreases groups@.len(),
    {
        let ghost remg = groups_view(groups@);
        let ghost donev = stages_view(stages@);
        let ghost gs_before = groups@;
        let gr = groups.remove(0);
        proof {
            assert(groups_view(gs_before)[0] == tokens_view(gs_before[0]@));
            assert(tokens_view(gr@) == remg[0]);
            assert forall|k: int| 0 <= k < groups@.len() implies #[trigger] groups_view(
                groups@,
            )[k] == remg.drop_first()[k] by {
                assert(groups@[k] == gs_before[k + 1]);
                assert(groups_view(gs_before)[k + 1] == tokens_view(gs_before[k + 1]@));
            }
            assert(groups_view(groups@) =~= remg.drop_first());
        }
        match parse_group_x(gr) {
            Err(e) => {
                return Err(e);
            },
            Ok(st) => {
                let ghost stv = st@;
                stages.push(st);
                proof {
                    assert(stages_view(stages@) =~= donev.push(stv));
                    match parse_groups(remg.drop_first()) {
                        Ok(rest) => {
                            assert(donev + (seq![stv] + rest) =~= donev.push(stv) + rest);
                        },
                        Err(_) => {},
                    }
                }
            },
        }
    }
    proof {
        assert(stages_view(stages@) + Seq::<StageModel>::empty() =~= stages_view(stages@));
    }
    let ghost sv = stages_view(stages@);
    proof {
        assert(parse_groups(gsv) == Ok::<Seq<StageModel>, SyntaxError>(sv));
    }
    let n = stages.len();
    let mut i: usize = 0;
    while i < n
        invariant
            tv == tokens_view(tokens@),
            background == strip_background(tv).1,
            body == strip_background(tv).0,
            body.len() > 0,
            parse_groups(split_pipes(body)) == Ok::<Seq<StageModel>, SyntaxError>(sv),
            i <= n,
            n == stages.len(),
            sv == stages_view(stages@),
            position_error(sv, 0) == position_error(sv, i as int),
        decreases n - i,
    {
        proof {
            assert(stages_view(stages@)[i as int] == stages@[i as int]@);
        }
        if i > 0 && stages[i].stdin_file.is_some() {
            return Err(SyntaxError::StdinNotFirst);
        }
        if i < n - 1 && stages[i].stdout_file.is_some() {
            return Err(SyntaxError::StdoutNotLast);
        }
        i += 1;
    }
    Ok(Pipeline { stages, background })
}

} // verus!
