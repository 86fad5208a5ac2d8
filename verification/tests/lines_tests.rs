use minish::lines::append_line;
use minish::token::SyntaxError;

fn step(acc: &str, line: &str) -> (String, bool) {
    let (out, cont) = append_line(acc.as_bytes().to_vec(), &line.as_bytes().to_vec());
    (String::from_utf8(out).unwrap(), cont)
}

#[test]
fn trailing_backslash_continues_the_line() {
    let (acc, cont) = step("", "echo a\\");
    assert!(cont);
    assert_eq!(acc, "echo a");
    let (acc, cont) = step(&acc, "b c");
    assert!(!cont);
    assert_eq!(acc, "echo a b c");
}

#[test]
fn escaped_backslash_does_not_continue() {
    let (acc, cont) = step("", "echo a\\\\");
    assert!(!cont);
    assert_eq!(acc, "echo a\\\\");
}

#[test]
fn three_backslashes_continue_and_keep_two() {
    let (acc, cont) = step("", "echo a\\\\\\");
    assert!(cont);
    assert_eq!(acc, "echo a\\\\");
}

#[test]
fn no_space_inserted_around_a_pipe() {
    let (acc, cont) = step("", "ls |\\");
    assert!(cont);
    let (acc, cont) = step(&acc, "wc");
    assert!(!cont);
    assert_eq!(acc, "ls |wc");
    let (acc, _) = step("ls", "| wc");
    assert_eq!(acc, "ls| wc");
}

#[test]
fn parts_are_trimmed_before_joining() {
    let (acc, cont) = step("", "  echo a   \\");
    assert!(cont);
    assert_eq!(acc, "echo a");
    let (acc, _) = step(&acc, "   b   ");
    assert_eq!(acc, "echo a b");
}

#[test]
fn error_descriptions_name_the_rule() {
    assert!(SyntaxError::UnclosedQuote.describe().contains("quote"));
    assert!(SyntaxError::DanglingPipe.describe().contains("pipe"));
    assert!(SyntaxError::StdoutNotLast.describe().contains("last"));
    assert!(SyntaxError::BuiltinInPipeline.describe().contains("pipeline"));
}
