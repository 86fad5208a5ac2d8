//! The library's laws: properties that span several functions, stated and
//! proved over the same models the functions' own contracts use.

use vstd::prelude::*;

use crate::lexer::{
    brace_scan_spec, dollar_spec, env_value_spec, lex_from, lex_spec, name_run_spec,
    scan_double_spec, scan_psub_spec, scan_single_spec, tilde_token,
};
use crate::parser::{
    command_segments, nonempty_groups, parse_group, parse_groups, parse_pipeline_spec,
    parse_words, position_error, split_pipes, split_separators, strip_background, ArgModel,
    PipelineModel, StageCmdModel, StageModel,
};
use crate::token::{SyntaxError, TokenModel};

verus! {

/// A token run with no command separator in it.
pub open spec fn separator_free(ts: Seq<TokenModel>) -> bool {
    forall|i: int| 0 <= i < ts.len() ==> #[trigger] ts[i] != TokenModel::Separator
}

pub proof fn lemma_split_separators_prefix(a: Seq<TokenModel>, tail: Seq<TokenModel>)
    requires
        separator_free(a),
    ensures
        split_separators(a + tail) == seq![a + split_separators(tail)[0]] + split_separators(
            tail,
        ).drop_first(),
    decreases a.len(),
{
    crate::parser::lemma_split_separators_len(tail);
    if a.len() == 0 {
        assert(a + tail =~= tail);
        assert(a + split_separators(tail)[0] =~= split_separators(tail)[0]);
        assert(seq![split_separators(tail)[0]] + split_separators(tail).drop_first()
            =~= split_separators(tail));
    } else {
        let s = a + tail;
        assert(s.len() > 0);
        assert(s[0] == a[0]);
        assert(s[0] != TokenModel::Separator);
        assert(s.drop_first() =~= a.drop_first() + tail);
        assert forall|i: int| 0 <= i < a.drop_first().len() implies #[trigger] a.drop_first()[i]
            != TokenModel::Separator by {
            assert(a.drop_first()[i] == a[i + 1]);
        }
        lemma_split_separators_prefix(a.drop_first(), tail);
        let t = split_separators(tail);
        let r = split_separators(a.drop_first() + tail);
        assert(r == seq![a.drop_first() + t[0]] + t.drop_first());
        assert(r[0] == a.drop_first() + t[0]);
        assert(r.drop_first() =~= t.drop_first());
        assert(seq![a[0]] + (a.drop_first() + t[0]) =~= a + t[0]);
        assert(split_separators(s) == seq![seq![s[0]] + r[0]] + r.drop_first());
        assert(seq![seq![a[0]] + r[0]] + r.drop_first() =~= seq![a + t[0]] + t.drop_first());
    }
}

/// One line, two commands: a separator-free command, a `;`, and another
/// separator-free command always split into exactly those two segments —
/// whatever either of them holds.  The driver runs the segments in order,
/// each through its own parse and spawn, so the first one's exit status can
/// never keep the second from running.
pub proof fn lemma_two_commands_split(a: Seq<TokenModel>, b: Seq<TokenModel>)
    requires
        separator_free(a),
        separator_free(b),
        a.len() > 0,
        b.len() > 0,
    ensures
        command_segments(a + seq![TokenModel::Separator] + b) == seq![a, b],
{
    let mid = seq![TokenModel::Separator] + b;
    assert(a + seq![TokenModel::Separator] + b =~= a + mid);
    lemma_split_separators_prefix(a, mid);
    assert(mid[0] == TokenModel::Separator);
    assert(mid.drop_first() =~= b);
    assert(split_separators(mid) == seq![Seq::<TokenModel>::empty()] + split_separators(b));
    assert(b + Seq::<TokenModel>::empty() =~= b);
    lemma_split_separators_prefix(b, Seq::<TokenModel>::empty());
    assert(split_separators(Seq::<TokenModel>::empty()) == seq![Seq::<TokenModel>::empty()]);
    assert(b + split_separators(Seq::<TokenModel>::empty())[0] =~= b);
    assert(seq![b + split_separators(Seq::<TokenModel>::empty())[0]] + split_separators(
        Seq::<TokenModel>::empty(),
    ).drop_first() =~= seq![b]);
    assert(split_separators(b) == seq![b]);
    assert(split_separators(mid) =~= seq![Seq::<TokenModel>::empty(), b]);
    assert(split_separators(mid)[0] =~= Seq::<TokenModel>::empty());
    assert(a + split_separators(mid)[0] =~= a);
    assert(split_separators(mid).drop_first() =~= seq![b]);
    assert(split_separators(a + mid) =~= seq![a, b]);
    assert((seq![a, b]).drop_first() =~= seq![b]);
    assert((seq![b]).drop_first() =~= Seq::<Seq<TokenModel>>::empty());
    assert(nonempty_groups(seq![b]) == seq![b] + nonempty_groups(Seq::<Seq<TokenModel>>::empty()));
    assert(nonempty_groups(seq![a, b]) == seq![a] + nonempty_groups(seq![b]));
    assert(seq![a] + (seq![b] + Seq::<Seq<TokenModel>>::empty()) =~= seq![a, b]);
}

/// Where a scan of the line stands: outside quotes, inside a single or a
/// double quote, or inside a process substitution with some depth of open
/// parentheses.
pub enum ScanMode {
    Norm,
    InSingle,
    InDouble,
    InPsub(nat),
}

/// Where a `$` form ends, independent of the environment: the value read
/// depends on the environment, the bytes consumed never do.
pub open spec fn dollar_end(input: Seq<u8>, i: int) -> int {
    if 0 <= i < input.len() && input[i] == 123 {
        brace_scan_spec(input, i + 1).1
    } else {
        let (n, j) = name_run_spec(input, i);
        if n.len() == 0 {
            i
        } else {
            j
        }
    }
}

pub proof fn lemma_dollar_end(input: Seq<u8>, i: int, env: Seq<(Vec<u8>, Vec<u8>)>)
    ensures
        dollar_spec(input, i, env).1 == dollar_end(input, i),
{
}

pub proof fn lemma_dollar_end_bounds(input: Seq<u8>, i: int)
    requires
        0 <= i <= input.len(),
    ensures
        i <= dollar_end(input, i) <= input.len(),
{
    if 0 <= i < input.len() && input[i] == 123 {
        crate::lexer::lemma_brace_scan_bounds(input, i + 1);
    } else {
        crate::lexer::lemma_name_run_bounds(input, i);
    }
}

/// Whether the line's quoting is balanced from position `i` on, in mode `m`:
/// every opened quote closes, every process substitution finds its matching
/// parenthesis, and the line ends outside both.  The byte classes and their
/// widths are those of the lexer itself.
pub open spec fn balanced_from(input: Seq<u8>, i: int, m: ScanMode) -> bool
    decreases input.len() - i,
    via balanced_from_dec
{
    if i < 0 {
        true
    } else if i >= input.len() {
        m is Norm
    } else {
        let b = input[i];
        match m {
            ScanMode::Norm => {
                if crate::lexer::is_space(b) {
                    balanced_from(input, i + 1, ScanMode::Norm)
                } else if b == 39 {
                    balanced_from(input, i + 1, ScanMode::InSingle)
                } else if b == 34 {
                    balanced_from(input, i + 1, ScanMode::InDouble)
                } else if b == 92 {
                    if i + 1 < input.len() {
                        balanced_from(input, i + 2, ScanMode::Norm)
                    } else {
                        balanced_from(input, i + 1, ScanMode::Norm)
                    }
                } else if b == 36 {
                    balanced_from(input, dollar_end(input, i + 1), ScanMode::Norm)
                } else if (b == 62 || b == 60) && i + 1 < input.len() && input[i + 1] == 40 {
                    balanced_from(input, i + 2, ScanMode::InPsub(1))
                } else if b == 62 && i + 1 < input.len() && input[i + 1] == 62 {
                    balanced_from(input, i + 2, ScanMode::Norm)
                } else if b == 50 && i + 1 < input.len() && input[i + 1] == 62 {
                    balanced_from(input, i + 2, ScanMode::Norm)
                } else {
                    balanced_from(input, i + 1, ScanMode::Norm)
                }
            },
            ScanMode::InSingle => {
                if b == 39 {
                    balanced_from(input, i + 1, ScanMode::Norm)
                } else {
                    balanced_from(input, i + 1, ScanMode::InSingle)
                }
            },
            ScanMode::InDouble => {
                if b == 34 {
                    balanced_from(input, i + 1, ScanMode::Norm)
                } else if b == 92 {
                    if i + 1 < input.len() {
                        balanced_from(input, i + 2, ScanMode::InDouble)
                    } else {
                        false
                    }
                } else if b == 36 {
                    balanced_from(input, dollar_end(input, i + 1), ScanMode::InDouble)
                } else {
                    balanced_from(input, i + 1, ScanMode::InDouble)
                }
            },
            ScanMode::InPsub(depth) => {
                if b == 41 && depth == 1 {
                    balanced_from(input, i + 1, ScanMode::Norm)
                } else {
                    let d = if b == 41 {
                        (depth - 1) as nat
                    } else if b == 40 {
                        depth + 1
                    } else {
                        depth
                    };
                    balanced_from(input, i + 1, ScanMode::InPsub(d))
                }
            },
        }
    }
}

#[via_fn]
proof fn balanced_from_dec(input: Seq<u8>, i: int, m: ScanMode) {
    if 0 <= i < input.len() {
        lemma_dollar_end_bounds(input, i + 1);
    }
}

/// Balanced quoting for the whole line.
pub open spec fn quotes_balanced(input: Seq<u8>) -> bool {
    balanced_from(input, 0, ScanMode::Norm)
}

pub proof fn lemma_balanced_single(input: Seq<u8>, i: int)
    requires
        0 <= i,
    ensures
        balanced_from(input, i, ScanMode::InSingle) == (match scan_single_spec(input, i) {
            Option::None => false,
            Option::Some((c, j)) => balanced_from(input, j, ScanMode::Norm),
        }),
    decreases input.len() - i,
{
    if i >= input.len() {
    } else if input[i] == 39 {
    } else {
        lemma_balanced_single(input, i + 1);
    }
}

pub proof fn lemma_balanced_double(input: Seq<u8>, i: int, env: Seq<(Vec<u8>, Vec<u8>)>)
    requires
        0 <= i <= input.len(),
    ensures
        balanced_from(input, i, ScanMode::InDouble) == (match scan_double_spec(input, i, env) {
            Option::None => false,
            Option::Some((c, j)) => balanced_from(input, j, ScanMode::Norm),
        }),
    decreases input.len() - i,
{
    if i >= input.len() {
    } else if input[i] == 34 {
    } else if input[i] == 92 {
        if i + 1 < input.len() {
            lemma_balanced_double(input, i + 2, env);
        }
    } else if input[i] == 36 {
        lemma_dollar_end(input, i + 1, env);
        crate::lexer::lemma_dollar_bounds(input, i + 1, env);
        lemma_balanced_double(input, dollar_spec(input, i + 1, env).1, env);
    } else {
        lemma_balanced_double(input, i + 1, env);
    }
}

pub proof fn lemma_balanced_psub(input: Seq<u8>, i: int, depth: nat)
    requires
        0 <= i,
    ensures
        balanced_from(input, i, ScanMode::InPsub(depth)) == (
        match scan_psub_spec(input, i, depth) {
            Option::None => false,
            Option::Some((c, j)) => balanced_from(input, j, ScanMode::Norm),
        }),
    decreases input.len() - i,
{
    if i >= input.len() {
    } else if input[i] == 41 && depth == 1 {
    } else {
        let d = if input[i] == 41 {
            (depth - 1) as nat
        } else if input[i] == 40 {
            depth + 1
        } else {
            depth
        };
        lemma_balanced_psub(input, i + 1, d);
    }
}

pub proof fn lemma_lex_from_ok_iff_balanced(
    input: Seq<u8>,
    env: Seq<(Vec<u8>, Vec<u8>)>,
    i: int,
    cur: Seq<u8>,
    pending: bool,
    acc: Seq<TokenModel>,
)
    requires
        0 <= i <= input.len(),
    ensures
        (lex_from(input, env, i, cur, pending, acc) is Ok) == balanced_from(
            input,
            i,
            ScanMode::Norm,
        ),
    decreases input.len() - i,
{
    if i >= input.len() {
    } else {
        let b = input[i];
        if crate::lexer::is_space(b) {
            lemma_lex_from_ok_iff_balanced(
                input,
                env,
                i + 1,
                Seq::empty(),
                false,
                crate::lexer::flush_word(cur, pending, acc),
            );
        } else if b == 39 {
            crate::lexer::lemma_scan_single_bounds(input, i + 1);
            lemma_balanced_single(input, i + 1);
            match scan_single_spec(input, i + 1) {
                Option::None => {},
                Option::Some((c, j)) => {
                    lemma_lex_from_ok_iff_balanced(
                        input,
                        env,
                        j,
                        Seq::empty(),
                        false,
                        crate::lexer::flush_word(cur, pending, acc).push(TokenModel::Word(c)),
                    );
                },
            }
        } else if b == 34 {
            crate::lexer::lemma_scan_double_bounds(input, i + 1, env);
            lemma_balanced_double(input, i + 1, env);
            match scan_double_spec(input, i + 1, env) {
                Option::None => {},
                Option::Some((c, j)) => {
                    lemma_lex_from_ok_iff_balanced(
                        input,
                        env,
                        j,
                        Seq::empty(),
                        false,
                        crate::lexer::flush_word(cur, pending, acc).push(TokenModel::Word(c)),
                    );
                },
            }
        } else if b == 92 {
            if i + 1 < input.len() {
                lemma_lex_from_ok_iff_balanced(input, env, i + 2, cur.push(input[i + 1]), true, acc);
            } else {
                lemma_lex_from_ok_iff_balanced(input, env, i + 1, cur, pending, acc);
            }
        } else if b == 36 {
            crate::lexer::lemma_dollar_bounds(input, i + 1, env);
            lemma_dollar_end(input, i + 1, env);
            let (v, j) = dollar_spec(input, i + 1, env);
            lemma_lex_from_ok_iff_balanced(input, env, j, cur + v, true, acc);
        } else if (b == 62 || b == 60) && i + 1 < input.len() && input[i + 1] == 40 {
            crate::lexer::lemma_scan_psub_bounds(input, i + 2, 1);
            lemma_balanced_psub(input, i + 2, 1);
            match scan_psub_spec(input, i + 2, 1) {
                Option::None => {},
                Option::Some((inner, j)) => {
                    lemma_lex_from_ok_iff_balanced(
                        input,
                        env,
                        j,
                        Seq::empty(),
                        false,
                        crate::lexer::flush_word(cur, pending, acc).push(
                            TokenModel::ProcessSub { output: b == 62, inner },
                        ),
                    );
                },
            }
        } else if b == 62 && i + 1 < input.len() && input[i + 1] == 62 {
            lemma_lex_from_ok_iff_balanced(
                input,
                env,
                i + 2,
                Seq::empty(),
                false,
                crate::lexer::flush_word(cur, pending, acc).push(
                    TokenModel::RedirectOut { append: true },
                ),
            );
        } else if b == 62 {
            lemma_lex_from_ok_iff_balanced(
                input,
                env,
                i + 1,
                Seq::empty(),
                false,
                crate::lexer::flush_word(cur, pending, acc).push(
                    TokenModel::RedirectOut { append: false },
                ),
            );
        } else if b == 60 {
            lemma_lex_from_ok_iff_balanced(
                input,
                env,
                i + 1,
                Seq::empty(),
                false,
                crate::lexer::flush_word(cur, pending, acc).push(TokenModel::RedirectIn),
            );
        } else if b == 50 && i + 1 < input.len() && input[i + 1] == 62 {
            lemma_lex_from_ok_iff_balanced(
                input,
                env,
                i + 2,
                Seq::empty(),
                false,
                crate::lexer::flush_word(cur, pending, acc).push(TokenModel::RedirectErr),
            );
        } else if b == 124 || b == 40 || b == 41 || b == 59 || b == 38 {
            let t = if b == 124 {
                TokenModel::Pipe
            } else if b == 40 {
                TokenModel::GroupOpen
            } else if b == 41 {
                TokenModel::GroupClose
            } else if b == 59 {
                TokenModel::Separator
            } else {
                TokenModel::Background
            };
            lemma_lex_from_ok_iff_balanced(
                input,
                env,
                i + 1,
                Seq::empty(),
                false,
                crate::lexer::flush_word(cur, pending, acc).push(t),
            );
        } else {
            lemma_lex_from_ok_iff_balanced(input, env, i + 1, cur.push(b), true, acc);
        }
    }
}

/// Unmatched quoting is exactly the lexer's failure: a line with balanced
/// quotes and closed substitutions always lexes in full, and a line with an
/// unclosed quote or substitution always yields the syntax error and no
/// token sequence at all — whatever the environment holds.
pub proof fn lemma_lex_total_iff_balanced(input: Seq<u8>, env: Seq<(Vec<u8>, Vec<u8>)>)
    ensures
        (lex_spec(input, env) is Ok) <==> quotes_balanced(input),
{
    lemma_lex_from_ok_iff_balanced(input, env, 0, Seq::empty(), false, Seq::empty());
}

/// A word wrapped in single quotes.
pub open spec fn quote_word(w: Seq<u8>) -> Seq<u8> {
    seq![39u8] + w + seq![39u8]
}

/// Words rendered as a command line, each single-quoted, separated by single
/// spaces.
pub open spec fn render_quoted(words: Seq<Seq<u8>>) -> Seq<u8>
    decreases words.len(),
{
    if words.len() == 0 {
        Seq::empty()
    } else if words.len() == 1 {
        quote_word(words[0])
    } else {
        quote_word(words[0]) + seq![32u8] + render_quoted(words.drop_first())
    }
}

/// A word that single quotes carry through unchanged: no quote byte of its
/// own (none can be written inside single quotes), and no leading tilde
/// (which tilde expansion would rewrite).
pub open spec fn plain_word(w: Seq<u8>) -> bool {
    &&& forall|k: int| 0 <= k < w.len() ==> #[trigger] w[k] != 39
    &&& !(w.len() >= 1 && w[0] == 126 && (w.len() == 1 || w[1] == 47))
}

/// No single-quote byte anywhere in the word.
pub open spec fn quote_free(w: Seq<u8>) -> bool {
    forall|k: int| 0 <= k < w.len() ==> #[trigger] w[k] != 39
}

pub proof fn lemma_scan_single_literal(input: Seq<u8>, i: int, n: int)
    requires
        0 <= i,
        0 <= n,
        i + n < input.len(),
        forall|k: int| i <= k < i + n ==> #[trigger] input[k] != 39,
        input[i + n] == 39,
    ensures
        scan_single_spec(input, i) == Option::Some((input.subrange(i, i + n), i + n + 1)),
    decreases n,
{
    if n == 0 {
        assert(input.subrange(i, i) =~= Seq::<u8>::empty());
    } else {
        assert(input[i] != 39);
        lemma_scan_single_literal(input, i + 1, n - 1);
        assert(seq![input[i]] + input.subrange(i + 1, i + n) =~= input.subrange(i, i + n));
    }
}

pub proof fn lemma_lex_quoted_suffix(
    input: Seq<u8>,
    env: Seq<(Vec<u8>, Vec<u8>)>,
    i: int,
    words: Seq<Seq<u8>>,
    acc: Seq<TokenModel>,
)
    requires
        0 <= i <= input.len(),
        words.len() >= 1,
        input.subrange(i, input.len() as int) == render_quoted(words),
        forall|t: int| 0 <= t < words.len() ==> quote_free(#[trigger] words[t]),
    ensures
        lex_from(input, env, i, Seq::empty(), false, acc) == Ok::<Seq<TokenModel>, SyntaxError>(
            acc + words.map_values(|w: Seq<u8>| TokenModel::Word(w)),
        ),
    decreases words.len(),
{
    let w0 = words[0];
    let n = w0.len() as int;
    let suffix = input.subrange(i, input.len() as int);
    assert(suffix.len() == render_quoted(words).len());
    assert(quote_word(w0).len() == n + 2);
    assert(suffix.len() >= n + 2) by {
        if words.len() == 1 {
        } else {
        }
    }
    assert(suffix[0] == 39) by {
        assert(render_quoted(words)[0] == quote_word(w0)[0]);
        assert(quote_word(w0)[0] == 39);
    }
    assert(input[i] == suffix[0]);
    assert forall|k: int| i + 1 <= k < i + 1 + n implies #[trigger] input[k] != 39 by {
        let kk = k - (i + 1);
        assert(input[k] == suffix[1 + kk]);
        assert(render_quoted(words)[1 + kk] == quote_word(w0)[1 + kk]);
        assert(quote_word(w0)[1 + kk] == w0[kk]);
        assert(quote_free(words[0]));
    }
    assert(input[i + 1 + n] == 39) by {
        assert(input[i + 1 + n] == suffix[1 + n]);
        assert(render_quoted(words)[1 + n] == quote_word(w0)[1 + n]);
        assert(quote_word(w0)[1 + n] == 39);
    }
    assert(i + 1 + n < input.len());
    lemma_scan_single_literal(input, i + 1, n);
    assert(input.subrange(i + 1, i + 1 + n) =~= w0) by {
        assert forall|k: int| 0 <= k < n implies input.subrange(i + 1, i + 1 + n)[k] == w0[k] by {
            assert(input.subrange(i + 1, i + 1 + n)[k] == input[i + 1 + k]);
            assert(input[i + 1 + k] == suffix[1 + k]);
            assert(render_quoted(words)[1 + k] == quote_word(w0)[1 + k]);
            assert(quote_word(w0)[1 + k] == w0[k]);
        }
    }
    let j = i + n + 2;
    assert(!crate::lexer::is_space(39u8));
    assert(crate::lexer::flush_word(Seq::empty(), false, acc) == acc);
    assert(lex_from(input, env, i, Seq::empty(), false, acc) == lex_from(
        input,
        env,
        j,
        Seq::empty(),
        false,
        acc.push(TokenModel::Word(w0)),
    ));
    if words.len() == 1 {
        assert(j == input.len());
        assert(lex_from(input, env, j, Seq::empty(), false, acc.push(TokenModel::Word(w0)))
            == Ok::<Seq<TokenModel>, SyntaxError>(acc.push(TokenModel::Word(w0))));
        assert(acc + words.map_values(|w: Seq<u8>| TokenModel::Word(w)) =~= acc.push(
            TokenModel::Word(w0),
        ));
    } else {
        assert(input[j] == 32) by {
            assert(input[j] == suffix[n + 2]);
            assert(render_quoted(words)[n + 2] == 32);
        }
        assert(lex_from(input, env, j, Seq::empty(), false, acc.push(TokenModel::Word(w0)))
            == lex_from(input, env, j + 1, Seq::empty(), false, acc.push(TokenModel::Word(w0))));
        let rest = words.drop_first();
        assert(input.subrange(j + 1, input.len() as int) =~= render_quoted(rest)) by {
            assert forall|k: int|
                0 <= k < input.len() - (j + 1) implies #[trigger] input.subrange(
                j + 1,
                input.len() as int,
            )[k] == render_quoted(rest)[k] by {
                assert(input.subrange(j + 1, input.len() as int)[k] == suffix[n + 3 + k]);
                assert(render_quoted(words)[n + 3 + k] == render_quoted(rest)[k]);
            }
        }
        assert forall|t: int| 0 <= t < rest.len() implies quote_free(#[trigger] rest[t]) by {
            assert(rest[t] == words[t + 1]);
        }
        lemma_lex_quoted_suffix(input, env, j + 1, rest, acc.push(TokenModel::Word(w0)));
        assert(acc.push(TokenModel::Word(w0)) + rest.map_values(
            |w: Seq<u8>| TokenModel::Word(w),
        ) =~= acc + words.map_values(|w: Seq<u8>| TokenModel::Word(w)));
    }
}

pub proof fn lemma_split_pipes_single(ts: Seq<TokenModel>)
    requires
        forall|i: int| 0 <= i < ts.len() ==> #[trigger] ts[i] != TokenModel::Pipe,
    ensures
        split_pipes(ts) == seq![ts],
    decreases ts.len(),
{
    if ts.len() == 0 {
        assert(ts =~= Seq::<TokenModel>::empty());
        assert(split_pipes(ts) == seq![ts]);
    } else {
        assert forall|i: int| 0 <= i < ts.drop_first().len() implies #[trigger] ts.drop_first()[i]
            != TokenModel::Pipe by {
            assert(ts.drop_first()[i] == ts[i + 1]);
        }
        lemma_split_pipes_single(ts.drop_first());
        let r = split_pipes(ts.drop_first());
        assert(r[0] == ts.drop_first());
        assert(seq![ts[0]] + ts.drop_first() =~= ts);
        assert(r.drop_first() =~= Seq::<Seq<TokenModel>>::empty());
        assert(seq![seq![ts[0]] + r[0]] + r.drop_first() =~= seq![ts]);
    }
}

pub proof fn lemma_parse_words_all_words(g: Seq<TokenModel>, i: int, args: Seq<ArgModel>)
    requires
        0 <= i <= g.len(),
        args.len() + g.len() - i >= 1,
        forall|k: int| 0 <= k < g.len() ==> #[trigger] g[k] is Word,
    ensures
        parse_words(g, i, args, Option::None, Option::None, Option::None) == Ok::<
            StageModel,
            SyntaxError,
        >(
            StageModel {
                cmd: StageCmdModel::Run(
                    args + g.skip(i).map_values(|t: TokenModel| ArgModel::Plain(t->Word_0)),
                ),
                stdin_file: Option::None,
                stdout_file: Option::None,
                stderr_file: Option::None,
            },
        ),
    decreases g.len() - i,
{
    if i >= g.len() {
        assert(g.skip(i) =~= Seq::<TokenModel>::empty());
        assert(args + g.skip(i).map_values(|t: TokenModel| ArgModel::Plain(t->Word_0)) =~= args);
    } else {
        let w = g[i]->Word_0;
        lemma_parse_words_all_words(g, i + 1, args.push(ArgModel::Plain(w)));
        assert(args.push(ArgModel::Plain(w)) + g.skip(i + 1).map_values(
            |t: TokenModel| ArgModel::Plain(t->Word_0),
        ) =~= args + g.skip(i).map_values(|t: TokenModel| ArgModel::Plain(t->Word_0))) by {
            let f = |t: TokenModel| ArgModel::Plain(t->Word_0);
            assert forall|k: int|
                0 <= k < g.skip(i).len() implies g.skip(i).map_values(f)[k] == (seq![
                ArgModel::Plain(w),
            ] + g.skip(i + 1).map_values(f))[k] && 0 <= #[trigger] (k + 0) by {
                if k == 0 {
                    assert(g.skip(i)[0] == g[i]);
                } else {
                    assert(g.skip(i)[k] == g[i + k]);
                    assert(g.skip(i + 1)[k - 1] == g[i + k]);
                }
            }
        }
    }
}

/// Lexing then parsing round-trips argument boundaries: any words, each
/// wrapped in single quotes and joined by spaces, come back as exactly one
/// stage whose argument vector is those words — no word split, merged,
/// reordered or lost, whatever bytes the words hold.  The words may not
/// contain a single-quote byte (none can be written inside single quotes)
/// nor start with a tilde (which would expand).
pub proof fn lemma_quoted_roundtrip(words: Seq<Seq<u8>>, env: Seq<(Vec<u8>, Vec<u8>)>)
    requires
        words.len() >= 1,
        forall|t: int| 0 <= t < words.len() ==> plain_word(#[trigger] words[t]),
    ensures
        ({
            let toks = words.map_values(|w: Seq<u8>| TokenModel::Word(w));
            &&& lex_spec(render_quoted(words), env) == Ok::<Seq<TokenModel>, SyntaxError>(toks)
            &&& parse_pipeline_spec(toks) == Ok::<PipelineModel, SyntaxError>(
                PipelineModel {
                    stages: seq![
                        StageModel {
                            cmd: StageCmdModel::Run(
                                words.map_values(|w: Seq<u8>| ArgModel::Plain(w)),
                            ),
                            stdin_file: Option::None,
                            stdout_file: Option::None,
                            stderr_file: Option::None,
                        },
                    ],
                    background: false,
                },
            )
        }),
{
    let input = render_quoted(words);
    let toks = words.map_values(|w: Seq<u8>| TokenModel::Word(w));
    assert forall|t: int| 0 <= t < words.len() implies quote_free(#[trigger] words[t]) by {
        assert(plain_word(words[t]));
    }
    assert(input.subrange(0, input.len() as int) =~= input);
    lemma_lex_quoted_suffix(input, env, 0, words, Seq::empty());
    assert(lex_from(input, env, 0, Seq::empty(), false, Seq::empty()) == Ok::<
        Seq<TokenModel>,
        SyntaxError,
    >(Seq::empty() + toks));
    assert(Seq::<TokenModel>::empty() + toks =~= toks);
    let home = env_value_spec(env, crate::lexer::home_name());
    assert(toks.map_values(|t: TokenModel| tilde_token(t, home)) =~= toks) by {
        assert forall|k: int|
            0 <= k < toks.len() implies toks.map_values(|t: TokenModel| tilde_token(t, home))[k]
            == #[trigger] toks[k] by {
            assert(toks[k] == TokenModel::Word(words[k]));
            assert(plain_word(words[k]));
            assert(crate::lexer::tilde_word(words[k], home) == words[k]);
        }
    }
    assert(lex_spec(input, env) == Ok::<Seq<TokenModel>, SyntaxError>(toks));
    // parsing
    assert forall|k: int| 0 <= k < toks.len() implies #[trigger] toks[k] is Word by {
        assert(toks[k] == TokenModel::Word(words[k]));
    }
    assert(toks.len() == words.len());
    assert(toks.last() == TokenModel::Word(words.last()));
    assert(strip_background(toks).0 == toks);
    assert(strip_background(toks).1 == false);
    assert forall|k: int| 0 <= k < toks.len() implies #[trigger] toks[k] != TokenModel::Pipe by {
        assert(toks[k] is Word);
    }
    lemma_split_pipes_single(toks);
    assert(toks[0] is Word);
    assert(!(toks.len() >= 2 && toks[0] == TokenModel::GroupOpen && toks.last()
        == TokenModel::GroupClose));
    lemma_parse_words_all_words(toks, 0, Seq::empty());
    let mapped = toks.skip(0).map_values(|t: TokenModel| ArgModel::Plain(t->Word_0));
    assert(toks.skip(0) =~= toks);
    assert(Seq::<ArgModel>::empty() + toks.map_values(
        |t: TokenModel| ArgModel::Plain(t->Word_0),
    ) =~= toks.map_values(|t: TokenModel| ArgModel::Plain(t->Word_0)));
    let st = StageModel {
        cmd: StageCmdModel::Run(words.map_values(|w: Seq<u8>| ArgModel::Plain(w))),
        stdin_file: Option::None,
        stdout_file: Option::None,
        stderr_file: Option::None,
    };
    assert(toks.map_values(|t: TokenModel| ArgModel::Plain(t->Word_0)) =~= words.map_values(
        |w: Seq<u8>| ArgModel::Plain(w),
    )) by {
        assert forall|k: int|
            0 <= k < toks.len() implies toks.map_values(
            |t: TokenModel| ArgModel::Plain(t->Word_0),
        )[k] == words.map_values(|w: Seq<u8>| ArgModel::Plain(w))[k] && 0 <= #[trigger] (k
            + 0) by {
            assert(toks[k] == TokenModel::Word(words[k]));
        }
    }
    assert(parse_group(toks) == Ok::<StageModel, SyntaxError>(st));
    assert(parse_groups(seq![toks]) == Ok::<Seq<StageModel>, SyntaxError>(seq![st])) by {
        assert((seq![toks]).drop_first() =~= Seq::<Seq<TokenModel>>::empty());
        assert(parse_groups(Seq::<Seq<TokenModel>>::empty()) == Ok::<
            Seq<StageModel>,
            SyntaxError,
        >(Seq::empty()));
        assert(seq![st] + Seq::<StageModel>::empty() =~= seq![st]);
    }
    assert(position_error(seq![st], 1) is None);
    assert(position_error(seq![st], 0) is None);
}

} // verus!
