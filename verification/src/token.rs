//! Tokens produced by the lexer, and the syntax errors of the front end.

use vstd::prelude::*;

verus! {

/// One token of a command line, in left-to-right order.
///
/// Words carry their bytes after quote removal, escape processing, variable
/// expansion and tilde expansion.  Redirection operators are bare: the parser
/// pairs each one with the following word token.  A process substitution
/// carries its direction (`output` is true for `>(...)`) and the raw inner
/// command text between its parentheses.
#[derive(PartialEq, Eq, Debug)]
pub enum Token {
    Word(Vec<u8>),
    Pipe,
    RedirectIn,
    RedirectOut { append: bool },
    RedirectErr,
    ProcessSub { output: bool, inner: Vec<u8> },
    GroupOpen,
    GroupClose,
    Background,
    Separator,
}

/// The mathematical model of a token: the same shape over `Seq<u8>`.
pub enum TokenModel {
    Word(Seq<u8>),
    Pipe,
    RedirectIn,
    RedirectOut { append: bool },
    RedirectErr,
    ProcessSub { output: bool, inner: Seq<u8> },
    GroupOpen,
    GroupClose,
    Background,
    Separator,
}

impl View for Token {
    type V = TokenModel;

    open spec fn view(&self) -> TokenModel {
        match self {
            Token::Word(w) => TokenModel::Word(w@),
            Token::Pipe => TokenModel::Pipe,
            Token::RedirectIn => TokenModel::RedirectIn,
            Token::RedirectOut { append } => TokenModel::RedirectOut { append: *append },
            Token::RedirectErr => TokenModel::RedirectErr,
            Token::ProcessSub { output, inner } => TokenModel::ProcessSub {
                output: *output,
                inner: inner@,
            },
            Token::GroupOpen => TokenModel::GroupOpen,
            Token::GroupClose => TokenModel::GroupClose,
            Token::Background => TokenModel::Background,
            Token::Separator => TokenModel::Separator,
        }
    }
}

/// The model of a token sequence.
pub open spec fn tokens_view(tokens: Seq<Token>) -> Seq<TokenModel> {
    tokens.map_values(|t: Token| t@)
}

pub broadcast proof fn lemma_tokens_view_len(tokens: Seq<Token>)
    ensures
        #[trigger] tokens_view(tokens).len() == tokens.len(),
{
}

pub broadcast proof fn lemma_tokens_view_index(tokens: Seq<Token>, i: int)
    requires
        0 <= i < tokens.len(),
    ensures
        #[trigger] tokens_view(tokens)[i] == tokens[i]@,
{
}

/// A syntax error of the lexer or the parser.  The line that caused it is
/// discarded; the interpreter goes on with the next line.
#[derive(PartialEq, Eq, Structural, Clone, Copy, Debug)]
pub enum SyntaxError {
    /// A single or double quote was opened and never closed.
    UnclosedQuote,
    /// A `<(...)` or `>(...)` form ran to the end of the line before its
    /// parentheses balanced.
    UnterminatedSubstitution,
    /// A pipe operator with no command on one of its sides.
    DanglingPipe,
    /// A redirection operator with no word after it.
    MissingRedirectTarget,
    /// The same kind of redirection given twice for one stage.
    DuplicateRedirect,
    /// A stdin file redirection on a stage other than the first.
    StdinNotFirst,
    /// A stdout file redirection on a stage other than the last.
    StdoutNotLast,
    /// A stage with no command word at all.
    EmptyCommand,
    /// A parenthesis that does not wrap a whole stage.
    StrayParen,
    /// A background marker somewhere other than the end of the command.
    BackgroundNotLast,
    /// A command separator in a position where a single command was expected.
    UnexpectedSeparator,
    /// A builtin used as a stage of a multi-stage pipeline.
    BuiltinInPipeline,
    /// A builtin combined with a redirection operator.
    BuiltinWithRedirect,
    /// A builtin given an argument form it does not take.
    BadBuiltinArgument,
}

impl SyntaxError {
    /// The user-facing description of the violated rule.
    pub open spec fn describe_spec(&self) -> Seq<char> {
        match self {
            SyntaxError::UnclosedQuote => "syntax error: a quote is never closed"@,
            SyntaxError::UnterminatedSubstitution => "syntax error: unterminated process substitution"@,
            SyntaxError::DanglingPipe => "syntax error: a pipe needs a command on each side"@,
            SyntaxError::MissingRedirectTarget => "syntax error: a redirection needs a file name after it"@,
            SyntaxError::DuplicateRedirect => "syntax error: the same redirection is given twice"@,
            SyntaxError::StdinNotFirst => "syntax error: only the first stage may redirect its input from a file"@,
            SyntaxError::StdoutNotLast => "syntax error: only the last stage may redirect its output to a file"@,
            SyntaxError::EmptyCommand => "syntax error: there is no command to run"@,
            SyntaxError::StrayParen => "syntax error: parentheses must wrap a whole stage"@,
            SyntaxError::BackgroundNotLast => "syntax error: `&` may only end a command"@,
            SyntaxError::UnexpectedSeparator => "syntax error: `;` in a single command"@,
            SyntaxError::BuiltinInPipeline => "error: this builtin cannot be used in a pipeline"@,
            SyntaxError::BuiltinWithRedirect => "error: this builtin does not support redirection"@,
            SyntaxError::BadBuiltinArgument => "error: this builtin was given a bad argument"@,
        }
    }

    /// The description as a string, for the driver to print.
    pub fn describe(&self) -> (r: &'static str)
        ensures
            r@ == self.describe_spec(),
    {
        match self {
            SyntaxError::UnclosedQuote => "syntax error: a quote is never closed",
            SyntaxError::UnterminatedSubstitution => "syntax error: unterminated process substitution",
            SyntaxError::DanglingPipe => "syntax error: a pipe needs a command on each side",
            SyntaxError::MissingRedirectTarget => "syntax error: a redirection needs a file name after it",
            SyntaxError::DuplicateRedirect => "syntax error: the same redirection is given twice",
            SyntaxError::StdinNotFirst => "syntax error: only the first stage may redirect its input from a file",
            SyntaxError::StdoutNotLast => "syntax error: only the last stage may redirect its output to a file",
            SyntaxError::EmptyCommand => "syntax error: there is no command to run",
            SyntaxError::StrayParen => "syntax error: parentheses must wrap a whole stage",
            SyntaxError::BackgroundNotLast => "syntax error: `&` may only end a command",
            SyntaxError::UnexpectedSeparator => "syntax error: `;` in a single command",
            SyntaxError::BuiltinInPipeline => "error: this builtin cannot be used in a pipeline",
            SyntaxError::BuiltinWithRedirect => "error: this builtin does not support redirection",
            SyntaxError::BadBuiltinArgument => "error: this builtin was given a bad argument",
        }
    }
}

} // verus!
