use minish::lexer::{lex, Env};
use minish::token::{SyntaxError, Token};

fn env_of(pairs: &[(&str, &str)]) -> Env {
    let mut entries: Vec<(Vec<u8>, Vec<u8>)> = Vec::new();
    for (k, v) in pairs {
        entries.push((k.as_bytes().to_vec(), v.as_bytes().to_vec()));
    }
    Env { entries }
}

fn lex_str(line: &str, pairs: &[(&str, &str)]) -> Result<Vec<Token>, SyntaxError> {
    lex(&line.as_bytes().to_vec(), &env_of(pairs))
}

fn word(s: &str) -> Token {
    Token::Word(s.as_bytes().to_vec())
}

#[test]
fn words_and_single_quotes_keep_boundaries() {
    let toks = lex_str("echo 'a b' c", &[]).unwrap();
    assert_eq!(toks, vec![word("echo"), word("a b"), word("c")]);
}

#[test]
fn unmatched_double_quote_is_syntax_error() {
    assert_eq!(lex_str("echo \"a", &[]), Err(SyntaxError::UnclosedQuote));
}

#[test]
fn unmatched_single_quote_is_syntax_error() {
    assert_eq!(lex_str("echo 'a", &[]), Err(SyntaxError::UnclosedQuote));
}

#[test]
fn unterminated_substitution_is_syntax_error() {
    assert_eq!(
        lex_str("cat <(ls", &[]),
        Err(SyntaxError::UnterminatedSubstitution)
    );
}

#[test]
fn escape_joins_words() {
    let toks = lex_str("a\\ b", &[]).unwrap();
    assert_eq!(toks, vec![word("a b")]);
}

#[test]
fn variable_expansion_outside_quotes() {
    let toks = lex_str("echo $X", &[("X", "hello")]).unwrap();
    assert_eq!(toks, vec![word("echo"), word("hello")]);
}

#[test]
fn braced_variable_expansion() {
    let toks = lex_str("echo ${X}y", &[("X", "ab")]).unwrap();
    assert_eq!(toks, vec![word("echo"), word("aby")]);
}

#[test]
fn unset_variable_expands_to_empty_word() {
    let toks = lex_str("echo $NOPE", &[]).unwrap();
    assert_eq!(toks, vec![word("echo"), word("")]);
}

#[test]
fn lone_dollar_stays_literal() {
    let toks = lex_str("echo $", &[]).unwrap();
    assert_eq!(toks, vec![word("echo"), word("$")]);
}

#[test]
fn double_quotes_expand_and_escape() {
    let toks = lex_str("echo \"a $X\\\" b\"", &[("X", "v")]).unwrap();
    assert_eq!(toks, vec![word("echo"), word("a v\" b")]);
}

#[test]
fn single_quotes_suppress_expansion() {
    let toks = lex_str("echo '$X'", &[("X", "v")]).unwrap();
    assert_eq!(toks, vec![word("echo"), word("$X")]);
}

#[test]
fn tilde_expands_to_home() {
    let toks = lex_str("ls ~/docs", &[("HOME", "/home/u")]).unwrap();
    assert_eq!(toks, vec![word("ls"), word("/home/u/docs")]);
    let toks = lex_str("cd ~", &[("HOME", "/home/u")]).unwrap();
    assert_eq!(toks, vec![word("cd"), word("/home/u")]);
}

#[test]
fn tilde_inside_word_is_literal() {
    let toks = lex_str("a~b", &[("HOME", "/h")]).unwrap();
    assert_eq!(toks, vec![word("a~b")]);
}

#[test]
fn redirection_operators_tokenize() {
    let toks = lex_str("a<b >c >>d 2>e", &[]).unwrap();
    assert_eq!(
        toks,
        vec![
            word("a"),
            Token::RedirectIn,
            word("b"),
            Token::RedirectOut { append: false },
            word("c"),
            Token::RedirectOut { append: true },
            word("d"),
            Token::RedirectErr,
            word("e"),
        ]
    );
}

#[test]
fn two_is_an_ordinary_byte_without_gt() {
    let toks = lex_str("a2b 2x", &[]).unwrap();
    assert_eq!(toks, vec![word("a2b"), word("2x")]);
}

#[test]
fn pipes_parens_background_separator() {
    let toks = lex_str("a|(b);c&", &[]).unwrap();
    assert_eq!(
        toks,
        vec![
            word("a"),
            Token::Pipe,
            Token::GroupOpen,
            word("b"),
            Token::GroupClose,
            Token::Separator,
            word("c"),
            Token::Background,
        ]
    );
}

#[test]
fn process_substitution_tokens() {
    let toks = lex_str("diff <(ls a) >(sort (x))", &[]).unwrap();
    assert_eq!(
        toks,
        vec![
            word("diff"),
            Token::ProcessSub {
                output: false,
                inner: b"ls a".to_vec()
            },
            Token::ProcessSub {
                output: true,
                inner: b"sort (x)".to_vec()
            },
        ]
    );
}

#[test]
fn empty_quoted_string_is_a_word() {
    let toks = lex_str("a '' b", &[]).unwrap();
    assert_eq!(toks, vec![word("a"), word(""), word("b")]);
}

#[test]
fn env_lookup_takes_first_entry() {
    let env = env_of(&[("X", "first"), ("X", "second")]);
    assert_eq!(env.value_of(&b"X".to_vec()), b"first".to_vec());
    assert_eq!(env.value_of(&b"Y".to_vec()), Vec::<u8>::new());
}
