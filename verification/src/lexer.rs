//! The lexer: one logical line of bytes in, a sequence of tokens out.
//!
//! Quoting rules: inside single quotes no byte is special; inside double
//! quotes a backslash escapes the next byte and `$name` / `${name}` expand to
//! the environment value (empty if unset); outside quotes whitespace separates
//! words, a backslash escapes the next byte, `$` expands, and the unescaped
//! operator bytes `|`, `<`, `>`, `>>`, `2>`, `(`, `)`, `;`, `&` form tokens of
//! their own.  `<(` and `>(` begin a process substitution whose inner text
//! runs to the matching parenthesis.  A word whose first byte is `~` (alone or
//! before `/`) has the `~` replaced by the value of `HOME`.
//!
//! The environment is handed in as data, so the lexer is a pure function of
//! its arguments; the driver fills an [`Env`] from the process environment.

use vstd::prelude::*;

use crate::token::{tokens_view, SyntaxError, Token, TokenModel};

verus! {

/// The environment the lexer expands variables from: name/value pairs,
/// earliest entry winning on duplicates.
pub struct Env {
    pub entries: Vec<(Vec<u8>, Vec<u8>)>,
}

/// Byte-sequence equality, decided by one pass.
pub fn bytes_eq(a: &Vec<u8>, b: &Vec<u8>) -> (r: bool)
    ensures
        r == (a@ == b@),
{
    if a.len() != b.len() {
        return false;
    }
    let mut i: usize = 0;
    while i < a.len()
        invariant
            i <= a.len(),
            a.len() == b.len(),
            forall|k: int| 0 <= k < i ==> a@[k] == b@[k],
        decreases a.len() - i,
    {
        if a[i] != b[i] {
            return false;
        }
        i += 1;
    }
    proof {
        assert(a@ =~= b@);
    }
    true
}

/// A fresh vector with the same bytes.
pub fn copy_bytes(v: &Vec<u8>) -> (r: Vec<u8>)
    ensures
        r@ == v@,
{
    let mut r: Vec<u8> = Vec::new();
    let mut i: usize = 0;
    while i < v.len()
        invariant
            i <= v.len(),
            r@ == v@.take(i as int),
        decreases v.len() - i,
    {
        r.push(v[i]);
        proof {
            assert(r@ =~= v@.take(i as int + 1));
        }
        i += 1;
    }
    proof {
        assert(v@.take(v@.len() as int) =~= v@);
    }
    r
}

/// Appends every byte of `src` from index `from` on to `dst`.
pub fn push_range(dst: &mut Vec<u8>, src: &Vec<u8>, from: usize)
    requires
        from <= src.len(),
    ensures
        final(dst)@ == old(dst)@ + src@.skip(from as int),
{
    let mut i: usize = from;
    while i < src.len()
        invariant
            from <= i <= src.len(),
            dst@ == old(dst)@ + src@.subrange(from as int, i as int),
        decreases src.len() - i,
    {
        dst.push(src[i]);
        proof {
            assert(old(dst)@ + src@.subrange(from as int, i as int + 1) =~= old(dst)@ + src@.subrange(
                from as int,
                i as int,
            ) + seq![src@[i as int]]);
        }
        i += 1;
    }
    proof {
        assert(src@.subrange(from as int, src@.len() as int) =~= src@.skip(from as int));
    }
}

/// Appends every byte of `src` to `dst`.
pub fn push_all(dst: &mut Vec<u8>, src: &Vec<u8>)
    ensures
        final(dst)@ == old(dst)@ + src@,
{
    push_range(dst, src, 0);
    proof {
        assert(src@.skip(0) =~= src@);
    }
}

/// The value of `name` among `entries`: the value of the first pair whose
/// name matches, or the empty sequence if none does.
pub open spec fn env_value_spec(entries: Seq<(Vec<u8>, Vec<u8>)>, name: Seq<u8>) -> Seq<u8>
    decreases entries.len(),
{
    if entries.len() == 0 {
        Seq::empty()
    } else if entries[0].0@ == name {
        entries[0].1@
    } else {
        env_value_spec(entries.drop_first(), name)
    }
}

impl Env {
    /// An environment with no entries.
    pub fn empty() -> (r: Env)
        ensures
            r.entries@ =~= Seq::<(Vec<u8>, Vec<u8>)>::empty(),
    {
        Env { entries: Vec::new() }
    }

    /// The value of `name`: the first matching entry's value, empty if none.
    pub fn value_of(&self, name: &Vec<u8>) -> (r: Vec<u8>)
        ensures
            r@ == env_value_spec(self.entries@, name@),
    {
        let mut i: usize = 0;
        proof {
            assert(self.entries@.skip(0) =~= self.entries@);
        }
        while i < self.entries.len()
            invariant
                i <= self.entries.len(),
                env_value_spec(self.entries@, name@) == env_value_spec(
                    self.entries@.skip(i as int),
                    name@,
                ),
            decreases self.entries.len() - i,
        {
            proof {
                assert(self.entries@.skip(i as int)[0] == self.entries@[i as int]);
                assert(self.entries@.skip(i as int).drop_first() =~= self.entries@.skip(
                    i as int + 1,
                ));
            }
            if bytes_eq(&self.entries[i].0, name) {
                return copy_bytes(&self.entries[i].1);
            }
            i += 1;
        }
        proof {
            assert(self.entries@.skip(self.entries@.len() as int) =~= Seq::<(
                Vec<u8>,
                Vec<u8>,
            )>::empty());
        }
        Vec::new()
    }
}

/// Bytes that separate words outside quotes.
pub open spec fn is_space(b: u8) -> bool {
    b == 32 || b == 9 || b == 10
}

/// Bytes that may form a variable name: ASCII letters, digits, underscore.
pub open spec fn is_name_byte(b: u8) -> bool {
    (97 <= b && b <= 122) || (65 <= b && b <= 90) || (48 <= b && b <= 57) || b == 95
}

/// Scan of a single-quoted segment beginning at `i` (just after the opening
/// quote): the literal content and the index after the closing quote, or
/// `None` if the quote never closes.
pub open spec fn scan_single_spec(input: Seq<u8>, i: int) -> Option<(Seq<u8>, int)>
    decreases input.len() - i,
{
    if i < 0 || i >= input.len() {
        None
    } else if input[i] == 39 {
        Some((Seq::empty(), i + 1))
    } else {
        match scan_single_spec(input, i + 1) {
            Option::None => Option::None,
            Option::Some((c, j)) => Option::Some((seq![input[i]] + c, j)),
        }
    }
}

pub proof fn lemma_scan_single_bounds(input: Seq<u8>, i: int)
    ensures
        scan_single_spec(input, i) matches Some(r) ==> i < r.1 <= input.len(),
    decreases input.len() - i,
{
    if i < 0 || i >= input.len() {
    } else if input[i] == 39 {
    } else {
        lemma_scan_single_bounds(input, i + 1);
    }
}

/// Scan of a `${...}` name beginning at `i` (just after the brace): the name
/// and the index after the closing brace.  A missing closing brace takes the
/// rest of the line as the name.
pub open spec fn brace_scan_spec(input: Seq<u8>, i: int) -> (Seq<u8>, int)
    decreases input.len() - i,
{
    if i < 0 || i >= input.len() {
        (Seq::empty(), if i < 0 { 0 } else { i })
    } else if input[i] == 125 {
        (Seq::empty(), i + 1)
    } else {
        let (n, j) = brace_scan_spec(input, i + 1);
        (seq![input[i]] + n, j)
    }
}

pub proof fn lemma_brace_scan_bounds(input: Seq<u8>, i: int)
    requires
        0 <= i <= input.len(),
    ensures
        i <= brace_scan_spec(input, i).1 <= input.len(),
    decreases input.len() - i,
{
    if i >= input.len() {
    } else if input[i] == 125 {
    } else {
        lemma_brace_scan_bounds(input, i + 1);
    }
}

/// Scan of a bare variable name beginning at `i`: the maximal run of name
/// bytes and the index after it.
pub open spec fn name_run_spec(input: Seq<u8>, i: int) -> (Seq<u8>, int)
    decreases input.len() - i,
{
    if i < 0 || i >= input.len() || !is_name_byte(input[i]) {
        (Seq::empty(), if i < 0 { 0 } else { i })
    } else {
        let (n, j) = name_run_spec(input, i + 1);
        (seq![input[i]] + n, j)
    }
}

pub proof fn lemma_name_run_bounds(input: Seq<u8>, i: int)
    requires
        0 <= i <= input.len(),
    ensures
        i <= name_run_spec(input, i).1 <= input.len(),
    decreases input.len() - i,
{
    if i >= input.len() || !is_name_byte(input[i]) {
    } else {
        lemma_name_run_bounds(input, i + 1);
    }
}

/// Expansion of a `$` form whose `$` sits just before `i`: the replacement
/// bytes and the index after the form.  `${name}` and `$name` expand to the
/// environment value; a `$` followed by neither a brace nor a name byte
/// stands for itself.
pub open spec fn dollar_spec(input: Seq<u8>, i: int, env: Seq<(Vec<u8>, Vec<u8>)>) -> (
    Seq<u8>,
    int,
) {
    if 0 <= i < input.len() && input[i] == 123 {
        let (name, j) = brace_scan_spec(input, i + 1);
        (env_value_spec(env, name), j)
    } else {
        let (name, j) = name_run_spec(input, i);
        if name.len() == 0 {
            (seq![36u8], i)
        } else {
            (env_value_spec(env, name), j)
        }
    }
}

pub proof fn lemma_dollar_bounds(input: Seq<u8>, i: int, env: Seq<(Vec<u8>, Vec<u8>)>)
    requires
        0 <= i <= input.len(),
    ensures
        i <= dollar_spec(input, i, env).1 <= input.len(),
{
    if 0 <= i < input.len() && input[i] == 123 {
        lemma_brace_scan_bounds(input, i + 1);
    } else {
        lemma_name_run_bounds(input, i);
    }
}

/// Scan of a double-quoted segment beginning at `i` (just after the opening
/// quote): the content after escape processing and variable expansion, and
/// the index after the closing quote, or `None` if the quote never closes.
pub open spec fn scan_double_spec(input: Seq<u8>, i: int, env: Seq<(Vec<u8>, Vec<u8>)>) -> Option<
    (Seq<u8>, int),
>
    decreases input.len() - i,
    via scan_double_spec_dec
{
    if i < 0 || i >= input.len() {
        None
    } else if input[i] == 34 {
        Some((Seq::empty(), i + 1))
    } else if input[i] == 92 {
        if i + 1 < input.len() {
            match scan_double_spec(input, i + 2, env) {
                Option::None => Option::None,
                Option::Some((c, j)) => Option::Some((seq![input[i + 1]] + c, j)),
            }
        } else {
            None
        }
    } else if input[i] == 36 {
        let (v, j) = dollar_spec(input, i + 1, env);
        match scan_double_spec(input, j, env) {
            Option::None => Option::None,
            Option::Some((c, k)) => Option::Some((v + c, k)),
        }
    } else {
        match scan_double_spec(input, i + 1, env) {
            Option::None => Option::None,
            Option::Some((c, j)) => Option::Some((seq![input[i]] + c, j)),
        }
    }
}

#[via_fn]
proof fn scan_double_spec_dec(input: Seq<u8>, i: int, env: Seq<(Vec<u8>, Vec<u8>)>) {
    if 0 <= i < input.len() && input[i] == 36 {
        lemma_dollar_bounds(input, i + 1, env);
    }
}

pub proof fn lemma_scan_double_bounds(input: Seq<u8>, i: int, env: Seq<(Vec<u8>, Vec<u8>)>)
    ensures
        scan_double_spec(input, i, env) matches Some(r) ==> i < r.1 <= input.len(),
    decreases input.len() - i,
{
    if i < 0 || i >= input.len() {
    } else if input[i] == 34 {
    } else if input[i] == 92 {
        if i + 1 < input.len() {
            lemma_scan_double_bounds(input, i + 2, env);
        }
    } else if input[i] == 36 {
        lemma_dollar_bounds(input, i + 1, env);
        let (v, j) = dollar_spec(input, i + 1, env);
        lemma_scan_double_bounds(input, j, env);
    } else {
        lemma_scan_double_bounds(input, i + 1, env);
    }
}

/// Scan of a process-substitution body beginning at `i` with `depth` open
/// parentheses: the inner text up to the parenthesis that balances the form,
/// and the index after it, or `None` if the line ends first.
pub open spec fn scan_psub_spec(input: Seq<u8>, i: int, depth: nat) -> Option<(Seq<u8>, int)>
    decreases input.len() - i,
{
    if i < 0 || i >= input.len() {
        None
    } else if input[i] == 41 && depth == 1 {
        Some((Seq::empty(), i + 1))
    } else {
        let d = if input[i] == 41 {
            (depth - 1) as nat
        } else if input[i] == 40 {
            depth + 1
        } else {
            depth
        };
        match scan_psub_spec(input, i + 1, d) {
            Option::None => Option::None,
            Option::Some((c, j)) => Option::Some((seq![input[i]] + c, j)),
        }
    }
}

pub proof fn lemma_scan_psub_bounds(input: Seq<u8>, i: int, depth: nat)
    ensures
        scan_psub_spec(input, i, depth) matches Some(r) ==> i < r.1 <= input.len(),
    decreases input.len() - i,
{
    if i < 0 || i >= input.len() {
    } else if input[i] == 41 && depth == 1 {
    } else {
        let d = if input[i] == 41 {
            (depth - 1) as nat
        } else if input[i] == 40 {
            depth + 1
        } else {
            depth
        };
        lemma_scan_psub_bounds(input, i + 1, d);
    }
}

/// Executable scan of a single-quoted segment.  See [`scan_single_spec`].
fn scan_single(input: &Vec<u8>, start: usize) -> (r: Option<(Vec<u8>, usize)>)
    requires
        start <= input.len(),
    ensures
        match r {
            Option::Some(p) => scan_single_spec(input@, start as int) == Option::Some(
                (p.0@, p.1 as int),
            ),
            Option::None => scan_single_spec(input@, start as int) is None,
        },
{
    let mut j: usize = start;
    let mut content: Vec<u8> = Vec::new();
    proof {
        assert(Seq::<u8>::empty() + Seq::<u8>::empty() =~= Seq::<u8>::empty());
    }
    while j < input.len()
        invariant
            start <= j <= input.len(),
            scan_single_spec(input@, start as int) == (match scan_single_spec(input@, j as int) {
                Option::None => Option::<(Seq<u8>, int)>::None,
                Option::Some((c, k)) => Option::Some((content@ + c, k)),
            }),
        decreases input.len() - j,
    {
        let b = input[j];
        if b == 39 {
            proof {
                assert(content@ + Seq::<u8>::empty() =~= content@);
            }
            return Option::Some((content, j + 1));
        }
        proof {
            match scan_single_spec(input@, j as int + 1) {
                Option::None => {}
                Option::Some((c, k)) => {
                    assert(content@ + (seq![input@[j as int]] + c) =~= content@.push(
                        input@[j as int],
                    ) + c);
                }
            }
        }
        content.push(b);
        j += 1;
    }
    Option::None
}

/// Executable scan of a `${...}` name.  See [`brace_scan_spec`].
fn scan_brace_name(input: &Vec<u8>, start: usize) -> (r: (Vec<u8>, usize))
    requires
        start <= input.len(),
    ensures
        brace_scan_spec(input@, start as int) == (r.0@, r.1 as int),
{
    let mut j: usize = start;
    let mut name: Vec<u8> = Vec::new();
    while j < input.len()
        invariant
            start <= j <= input.len(),
            brace_scan_spec(input@, start as int) == ({
                let (n, k) = brace_scan_spec(input@, j as int);
                (name@ + n, k)
            }),
        decreases input.len() - j,
    {
        let b = input[j];
        if b == 125 {
            proof {
                assert(name@ + Seq::<u8>::empty() =~= name@);
            }
            return (name, j + 1);
        }
        proof {
            let (n, k) = brace_scan_spec(input@, j as int + 1);
            assert(name@ + (seq![input@[j as int]] + n) =~= name@.push(input@[j as int]) + n);
        }
        name.push(b);
        j += 1;
    }
    proof {
        assert(name@ + Seq::<u8>::empty() =~= name@);
    }
    (name, j)
}

/// Whether `b` may form a variable name.  See [`is_name_byte`].
fn name_byte(b: u8) -> (r: bool)
    ensures
        r == is_name_byte(b),
{
    (97 <= b && b <= 122) || (65 <= b && b <= 90) || (48 <= b && b <= 57) || b == 95
}

/// Executable scan of a bare variable name.  See [`name_run_spec`].
fn scan_name_run(input: &Vec<u8>, start: usize) -> (r: (Vec<u8>, usize))
    requires
        start <= input.len(),
    ensures
        name_run_spec(input@, start as int) == (r.0@, r.1 as int),
{
    let mut j: usize = start;
    let mut name: Vec<u8> = Vec::new();
    while j < input.len() && name_byte(input[j])
        invariant
            start <= j <= input.len(),
            name_run_spec(input@, start as int) == ({
                let (n, k) = name_run_spec(input@, j as int);
                (name@ + n, k)
            }),
        decreases input.len() - j,
    {
        proof {
            let (n, k) = name_run_spec(input@, j as int + 1);
            assert(name@ + (seq![input@[j as int]] + n) =~= name@.push(input@[j as int]) + n);
        }
        name.push(input[j]);
        j += 1;
    }
    proof {
        assert(name@ + Seq::<u8>::empty() =~= name@);
    }
    (name, j)
}

/// Executable expansion of a `$` form.  See [`dollar_spec`].
fn expand_dollar(input: &Vec<u8>, start: usize, env: &Env) -> (r: (Vec<u8>, usize))
    requires
        start <= input.len(),
    ensures
        dollar_spec(input@, start as int, env.entries@) == (r.0@, r.1 as int),
{
    if start < input.len() && input[start] == 123 {
        let (name, j) = scan_brace_name(input, start + 1);
        (env.value_of(&name), j)
    } else {
        let (name, j) = scan_name_run(input, start);
        if name.len() == 0 {
            let mut dollar: Vec<u8> = Vec::new();
            dollar.push(36);
            proof {
                assert(dollar@ =~= seq![36u8]);
            }
            (dollar, start)
        } else {
            (env.value_of(&name), j)
        }
    }
}

/// Executable scan of a double-quoted segment.  See [`scan_double_spec`].
fn scan_double(input: &Vec<u8>, start: usize, env: &Env) -> (r: Option<(Vec<u8>, usize)>)
    requires
        start <= input.len(),
    ensures
        match r {
            Option::Some(p) => scan_double_spec(input@, start as int, env.entries@)
                == Option::Some((p.0@, p.1 as int)),
            Option::None => scan_double_spec(input@, start as int, env.entries@) is None,
        },
{
    let mut j: usize = start;
    let mut content: Vec<u8> = Vec::new();
    while j < input.len()
        invariant
            start <= j <= input.len(),
            scan_double_spec(input@, start as int, env.entries@) == (
            match scan_double_spec(input@, j as int, env.entries@) {
                Option::None => Option::<(Seq<u8>, int)>::None,
                Option::Some((c, k)) => Option::Some((content@ + c, k)),
            }),
        decreases input.len() - j,
    {
        let b = input[j];
        if b == 34 {
            proof {
                assert(content@ + Seq::<u8>::empty() =~= content@);
            }
            return Option::Some((content, j + 1));
        } else if b == 92 {
            if j + 1 < input.len() {
                proof {
                    match scan_double_spec(input@, j as int + 2, env.entries@) {
                        Option::None => {}
                        Option::Some((c, k)) => {
                            assert(content@ + (seq![input@[j as int + 1]] + c) =~= content@.push(
                                input@[j as int + 1],
                            ) + c);
                        }
                    }
                }
                content.push(input[j + 1]);
                j += 2;
            } else {
                return Option::None;
            }
        } else if b == 36 {
            let (v, j2) = expand_dollar(input, j + 1, env);
            proof {
                lemma_dollar_bounds(input@, j as int + 1, env.entries@);
                match scan_double_spec(input@, j2 as int, env.entries@) {
                    Option::None => {}
                    Option::Some((c, k)) => {
                        assert(content@ + (v@ + c) =~= (content@ + v@) + c);
                    }
                }
            }
            push_all(&mut content, &v);
            j = j2;
        } else {
            proof {
                match scan_double_spec(input@, j as int + 1, env.entries@) {
                    Option::None => {}
                    Option::Some((c, k)) => {
                        assert(content@ + (seq![input@[j as int]] + c) =~= content@.push(
                            input@[j as int],
                        ) + c);
                    }
                }
            }
            content.push(b);
            j += 1;
        }
    }
    Option::None
}

/// Executable scan of a process-substitution body.  See [`scan_psub_spec`].
fn scan_psub(input: &Vec<u8>, start: usize) -> (r: Option<(Vec<u8>, usize)>)
    requires
        1 <= start <= input.len(),
    ensures
        match r {
            Option::Some(p) => scan_psub_spec(input@, start as int, 1) == Option::Some(
                (p.0@, p.1 as int),
            ),
            Option::None => scan_psub_spec(input@, start as int, 1) is None,
        },
{
    let mut j: usize = start;
    let mut depth: usize = 1;
    let mut content: Vec<u8> = Vec::new();
    while j < input.len()
        invariant
            1 <= start <= j <= input.len(),
            1 <= depth,
            depth <= j - start + 1,
            scan_psub_spec(input@, start as int, 1) == (
            match scan_psub_spec(input@, j as int, depth as nat) {
                Option::None => Option::<(Seq<u8>, int)>::None,
                Option::Some((c, k)) => Option::Some((content@ + c, k)),
            }),
        decreases input.len() - j,
    {
        let b = input[j];
        if b == 41 && depth == 1 {
            proof {
                assert(content@ + Seq::<u8>::empty() =~= content@);
            }
            return Option::Some((content, j + 1));
        }
        let d: usize = if b == 41 {
            depth - 1
        } else if b == 40 {
            depth + 1
        } else {
            depth
        };
        proof {
            match scan_psub_spec(input@, j as int + 1, d as nat) {
                Option::None => {}
                Option::Some((c, k)) => {
                    assert(content@ + (seq![input@[j as int]] + c) =~= content@.push(
                        input@[j as int],
                    ) + c);
                }
            }
        }
        content.push(b);
        depth = d;
        j += 1;
    }
    Option::None
}

/// The word under construction, appended to the output if one is pending.
pub open spec fn flush_word(cur: Seq<u8>, pending: bool, acc: Seq<TokenModel>) -> Seq<
    TokenModel,
> {
    if pending {
        acc.push(TokenModel::Word(cur))
    } else {
        acc
    }
}

/// The whole lexer, one byte class at a time, before tilde expansion.
///
/// `i` is the next byte to read, `cur`/`pending` the word under construction,
/// `acc` the tokens already produced.  The run fails only where a quote or a
/// process substitution is left open at the end of the line.
pub open spec fn lex_from(
    input: Seq<u8>,
    env: Seq<(Vec<u8>, Vec<u8>)>,
    i: int,
    cur: Seq<u8>,
    pending: bool,
    acc: Seq<TokenModel>,
) -> Result<Seq<TokenModel>, SyntaxError>
    decreases input.len() - i,
    via lex_from_dec
{
    if i < 0 || i >= input.len() {
        Ok(flush_word(cur, pending, acc))
    } else {
        let b = input[i];
        if is_space(b) {
            lex_from(input, env, i + 1, Seq::empty(), false, flush_word(cur, pending, acc))
        } else if b == 39 {
            match scan_single_spec(input, i + 1) {
                Option::None => Err(SyntaxError::UnclosedQuote),
                Option::Some((c, j)) => lex_from(
                    input,
                    env,
                    j,
                    Seq::empty(),
                    false,
                    flush_word(cur, pending, acc).push(TokenModel::Word(c)),
                ),
            }
        } else if b == 34 {
            match scan_double_spec(input, i + 1, env) {
                Option::None => Err(SyntaxError::UnclosedQuote),
                Option::Some((c, j)) => lex_from(
                    input,
                    env,
                    j,
                    Seq::empty(),
                    false,
                    flush_word(cur, pending, acc).push(TokenModel::Word(c)),
                ),
            }
        } else if b == 92 {
            if i + 1 < input.len() {
                lex_from(input, env, i + 2, cur.push(input[i + 1]), true, acc)
            } else {
                lex_from(input, env, i + 1, cur, pending, acc)
            }
        } else if b == 36 {
            let (v, j) = dollar_spec(input, i + 1, env);
            lex_from(input, env, j, cur + v, true, acc)
        } else if (b == 62 || b == 60) && i + 1 < input.len() && input[i + 1] == 40 {
            match scan_psub_spec(input, i + 2, 1) {
                Option::None => Err(SyntaxError::UnterminatedSubstitution),
                Option::Some((inner, j)) => lex_from(
                    input,
                    env,
                    j,
                    Seq::empty(),
                    false,
                    flush_word(cur, pending, acc).push(
                        TokenModel::ProcessSub { output: b == 62, inner },
                    ),
                ),
            }
        } else if b == 62 && i + 1 < input.len() && input[i + 1] == 62 {
            lex_from(
                input,
                env,
                i + 2,
                Seq::empty(),
                false,
                flush_word(cur, pending, acc).push(TokenModel::RedirectOut { append: true }),
            )
        } else if b == 62 {
            lex_from(
                input,
                env,
                i + 1,
                Seq::empty(),
                false,
                flush_word(cur, pending, acc).push(TokenModel::RedirectOut { append: false }),
            )
        } else if b == 60 {
            lex_from(
                input,
                env,
                i + 1,
                Seq::empty(),
                false,
                flush_word(cur, pending, acc).push(TokenModel::RedirectIn),
            )
        } else if b == 50 && i + 1 < input.len() && input[i + 1] == 62 {
            lex_from(
                input,
                env,
                i + 2,
                Seq::empty(),
                false,
                flush_word(cur, pending, acc).push(TokenModel::RedirectErr),
            )
        } else if b == 124 {
            lex_from(
                input,
                env,
                i + 1,
                Seq::empty(),
                false,
                flush_word(cur, pending, acc).push(TokenModel::Pipe),
            )
        } else if b == 40 {
            lex_from(
                input,
                env,
                i + 1,
                Seq::empty(),
                false,
                flush_word(cur, pending, acc).push(TokenModel::GroupOpen),
            )
        } else if b == 41 {
            lex_from(
                input,
                env,
                i + 1,
                Seq::empty(),
                false,
                flush_word(cur, pending, acc).push(TokenModel::GroupClose),
            )
        } else if b == 59 {
            lex_from(
                input,
                env,
                i + 1,
                Seq::empty(),
                false,
                flush_word(cur, pending, acc).push(TokenModel::Separator),
            )
        } else if b == 38 {
            lex_from(
                input,
                env,
                i + 1,
                Seq::empty(),
                false,
                flush_word(cur, pending, acc).push(TokenModel::Background),
            )
        } else {
            lex_from(input, env, i + 1, cur.push(b), true, acc)
        }
    }
}

#[via_fn]
proof fn lex_from_dec(
    input: Seq<u8>,
    env: Seq<(Vec<u8>, Vec<u8>)>,
    i: int,
    cur: Seq<u8>,
    pending: bool,
    acc: Seq<TokenModel>,
) {
    if 0 <= i < input.len() {
        lemma_scan_single_bounds(input, i + 1);
        lemma_scan_double_bounds(input, i + 1, env);
        lemma_scan_psub_bounds(input, i + 2, 1);
        if input[i] == 36 {
            lemma_dollar_bounds(input, i + 1, env);
        }
    }
}

/// The name of the variable that tilde expansion reads.
pub open spec fn home_name() -> Seq<u8> {
    seq![72u8, 79u8, 77u8, 69u8]
}

/// Tilde expansion of one word: a leading `~`, alone or before `/`, is
/// replaced by `home`.
pub open spec fn tilde_word(w: Seq<u8>, home: Seq<u8>) -> Seq<u8> {
    if w.len() >= 1 && w[0] == 126 && (w.len() == 1 || w[1] == 47) {
        home + w.skip(1)
    } else {
        w
    }
}

/// Tilde expansion of one token: only words are touched.
pub open spec fn tilde_token(t: TokenModel, home: Seq<u8>) -> TokenModel {
    match t {
        TokenModel::Word(w) => TokenModel::Word(tilde_word(w, home)),
        _ => t,
    }
}

/// What [`lex`] returns: the byte-class run over the whole line, then tilde
/// expansion of every word with the value of `HOME`.
pub open spec fn lex_spec(input: Seq<u8>, env: Seq<(Vec<u8>, Vec<u8>)>) -> Result<
    Seq<TokenModel>,
    SyntaxError,
> {
    match lex_from(input, env, 0, Seq::empty(), false, Seq::empty()) {
        Ok(toks) => Ok(
            toks.map_values(|t: TokenModel| tilde_token(t, env_value_spec(env, home_name()))),
        ),
        Err(e) => Err(e),
    }
}

/// Appends the pending word, if any, to the token list and hands back a
/// fresh, empty word buffer.  See [`flush_word`].
fn flush_to(toks: &mut Vec<Token>, cur: Vec<u8>, pending: bool) -> (fresh: Vec<u8>)
    ensures
        tokens_view(final(toks)@) == flush_word(cur@, pending, tokens_view(old(toks)@)),
        fresh@ == Seq::<u8>::empty(),
{
    if pending {
        let ghost prev = toks@;
        let ghost wv = cur@;
        toks.push(Token::Word(cur));
        proof {
            assert(tokens_view(toks@) =~= tokens_view(prev).push(TokenModel::Word(wv)));
        }
    }
    Vec::new()
}

/// Tilde expansion over a finished token list.  See [`tilde_token`].
fn expand_tildes(toks: Vec<Token>, home: &Vec<u8>) -> (r: Vec<Token>)
    ensures
        tokens_view(r@) == tokens_view(toks@).map_values(
            |t: TokenModel| tilde_token(t, home@),
        ),
{
    let ghost orig = toks@;
    let mut toks = toks;
    let mut out: Vec<Token> = Vec::new();
    proof {
        assert(toks@ =~= orig.skip(0));
        assert(tokens_view(out@) =~= tokens_view(orig.take(0)).map_values(
            |t: TokenModel| tilde_token(t, home@),
        ));
    }
    while toks.len() > 0
        invariant
            toks@.len() <= orig.len(),
            toks@ == orig.skip(orig.len() - toks@.len()),
            tokens_view(out@) == tokens_view(orig.take(orig.len() - toks@.len())).map_values(
                |t: TokenModel| tilde_token(t, home@),
            ),
        decreases toks@.len(),
    {
        let ghost k = orig.len() - toks@.len();
        let t = toks.remove(0);
        proof {
            assert(t == orig[k]);
            assert(toks@ =~= orig.skip(k + 1));
        }
        let ghost prev_out = out@;
        match t {
            Token::Word(w) => {
                if w.len() >= 1 && w[0] == 126 && (w.len() == 1 || w[1] == 47) {
                    let mut nw = copy_bytes(home);
                    push_range(&mut nw, &w, 1);
                    out.push(Token::Word(nw));
                } else {
                    out.push(Token::Word(w));
                }
            },
            other => {
                out.push(other);
            },
        }
        proof {
            assert(out@[out@.len() - 1]@ == tilde_token(orig[k]@, home@));
            assert(tokens_view(out@) =~= tokens_view(prev_out).push(out@[out@.len() - 1]@));
            assert(tokens_view(orig.take(k + 1)).map_values(
                |t: TokenModel| tilde_token(t, home@),
            ) =~= tokens_view(orig.take(k)).map_values(|t: TokenModel| tilde_token(t, home@)).push(
                tilde_token(orig[k]@, home@),
            ));
        }
    }
    proof {
        assert(orig.take(orig.len() as int) =~= orig);
    }
    out
}

/// The lexer.  Turns one logical line into tokens, or fails where a quote or
/// a process substitution never closes.  The result is pinned to
/// [`lex_spec`], the mathematical run of the same rules.
pub fn lex(input: &Vec<u8>, env: &Env) -> (r: Result<Vec<Token>, SyntaxError>)
    ensures
        r matches Ok(toks) ==> lex_spec(input@, env.entries@) == Ok::<
            Seq<TokenModel>,
            SyntaxError,
        >(tokens_view(toks@)),
        r matches Err(e) ==> lex_spec(input@, env.entries@) == Err::<
            Seq<TokenModel>,
            SyntaxError,
        >(e),
{
    let mut toks: Vec<Token> = Vec::new();
    let mut cur: Vec<u8> = Vec::new();
    let mut pending: bool = false;
    let mut i: usize = 0;
    proof {
        assert(tokens_view(toks@) =~= Seq::<TokenModel>::empty());
    }
    while i < input.len()
        invariant
            i <= input.len(),
            lex_from(input@, env.entries@, i as int, cur@, pending, tokens_view(toks@))
                == lex_from(
                input@,
                env.entries@,
                0,
                Seq::<u8>::empty(),
                false,
                Seq::<TokenModel>::empty(),
            ),
        decreases input.len() - i,
    {
        let b = input[i];
        if b == 32 || b == 9 || b == 10 {
            cur = flush_to(&mut toks, cur, pending);
            pending = false;
            i += 1;
        } else if b == 39 {
            match scan_single(input, i + 1) {
                Option::None => {
                    return Err(SyntaxError::UnclosedQuote);
                },
                Option::Some((c, j)) => {
                    proof {
                        lemma_scan_single_bounds(input@, i as int + 1);
                    }
                    cur = flush_to(&mut toks, cur, pending);
                    pending = false;
                    let ghost prev = toks@;
                    let ghost cv = c@;
                    toks.push(Token::Word(c));
                    proof {
                        assert(tokens_view(toks@) =~= tokens_view(prev).push(TokenModel::Word(cv)));
                    }
                    i = j;
                },
            }
        } else if b == 34 {
            match scan_double(input, i + 1, env) {
                Option::None => {
                    return Err(SyntaxError::UnclosedQuote);
                },
                Option::Some((c, j)) => {
                    proof {
                        lemma_scan_double_bounds(input@, i as int + 1, env.entries@);
                    }
                    cur = flush_to(&mut toks, cur, pending);
                    pending = false;
                    let ghost prev = toks@;
                    let ghost cv = c@;
                    toks.push(Token::Word(c));
                    proof {
                        assert(tokens_view(toks@) =~= tokens_view(prev).push(TokenModel::Word(cv)));
                    }
                    i = j;
                },
            }
        } else if b == 92 {
            if i + 1 < input.len() {
                cur.push(input[i + 1]);
                pending = true;
                i += 2;
            } else {
                i += 1;
            }
        } else if b == 36 {
            let (v, j) = expand_dollar(input, i + 1, env);
            proof {
                lemma_dollar_bounds(input@, i as int + 1, env.entries@);
            }
            push_all(&mut cur, &v);
            pending = true;
            i = j;
        } else if (b == 62 || b == 60) && i + 1 < input.len() && input[i + 1] == 40 {
            match scan_psub(input, i + 2) {
                Option::None => {
                    return Err(SyntaxError::UnterminatedSubstitution);
                },
                Option::Some((inner, j)) => {
                    proof {
                        lemma_scan_psub_bounds(input@, i as int + 2, 1);
                    }
                    cur = flush_to(&mut toks, cur, pending);
                    pending = false;
                    let ghost prev = toks@;
                    let ghost iv = inner@;
                    let out_dir = b == 62;
                    toks.push(Token::ProcessSub { output: out_dir, inner });
                    proof {
                        assert(tokens_view(toks@) =~= tokens_view(prev).push(
                            TokenModel::ProcessSub { output: out_dir, inner: iv },
                        ));
                    }
                    i = j;
                },
            }
        } else {
            let op: Token = if b == 62 && i + 1 < input.len() && input[i + 1] == 62 {
                i += 2;
                Token::RedirectOut { append: true }
            } else if b == 62 {
                i += 1;
                Token::RedirectOut { append: false }
            } else if b == 60 {
                i += 1;
                Token::RedirectIn
            } else if b == 50 && i + 1 < input.len() && input[i + 1] == 62 {
                i += 2;
                Token::RedirectErr
            } else if b == 124 {
                i += 1;
                Token::Pipe
            } else if b == 40 {
                i += 1;
                Token::GroupOpen
            } else if b == 41 {
                i += 1;
                Token::GroupClose
            } else if b == 59 {
                i += 1;
                Token::Separator
            } else if b == 38 {
                i += 1;
                Token::Background
            } else {
                cur.push(b);
                pending = true;
                i += 1;
                Token::Word(Vec::new())
            };
            match op {
                Token::Word(_) => {},
                opt => {
                    cur = flush_to(&mut toks, cur, pending);
                    pending = false;
                    let ghost prev = toks@;
                    let ghost ov = opt@;
                    toks.push(opt);
                    proof {
                        assert(tokens_view(toks@) =~= tokens_view(prev).push(ov));
                    }
                },
            }
        }
    }
    cur = flush_to(&mut toks, cur, pending);
    let mut hname: Vec<u8> = Vec::new();
    hname.push(72);
    hname.push(79);
    hname.push(77);
    hname.push(69);
    proof {
        assert(hname@ =~= home_name());
    }
    let home = env.value_of(&hname);
    let out = expand_tildes(toks, &home);
    proof {
        assert(tokens_view(out@) =~= tokens_view(toks@).map_values(
            |t: TokenModel| tilde_token(t, env_value_spec(env.entries@, home_name())),
        ));
    }
    Ok(out)
}

} // verus!
