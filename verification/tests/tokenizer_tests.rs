use minishell::tokenizer::{tokenize, SyntaxError};

fn toks(line: &str) -> Vec<String> {
    tokenize(line).expect("line should tokenize")
}

fn owned(parts: &[&str]) -> Vec<String> {
    parts.iter().map(|p| String::from(*p)).collect()
}

#[test]
fn repeated_spaces_collapse() {
    assert_eq!(toks("echo hello  world"), owned(&["echo", "hello", "world"]));
}

#[test]
fn single_quotes_preserve_internal_space() {
    assert_eq!(toks("echo 'a b' c"), owned(&["echo", "a b", "c"]));
}

#[test]
fn double_quote_escape_of_quote() {
    assert_eq!(toks("echo \"a\\\"b\""), owned(&["echo", "a\"b"]));
}

#[test]
fn unterminated_single_quote_is_error() {
    assert_eq!(tokenize("echo 'unterminated"), Err(SyntaxError::UnbalancedQuote));
}

#[test]
fn unterminated_double_quote_is_error() {
    assert_eq!(tokenize("echo \"unterminated"), Err(SyntaxError::UnbalancedQuote));
}

#[test]
fn empty_line_gives_no_tokens() {
    assert_eq!(toks(""), owned(&[]));
    assert_eq!(toks("   "), owned(&[]));
}

#[test]
fn backslash_escapes_space_outside_quotes() {
    assert_eq!(toks("a\\ b"), owned(&["a b"]));
}

#[test]
fn backslash_escapes_backslash_outside_quotes() {
    assert_eq!(toks("a\\\\b"), owned(&["a\\b"]));
}

#[test]
fn trailing_backslash_is_dropped() {
    assert_eq!(toks("ab\\"), owned(&["ab"]));
}

#[test]
fn double_quote_backslash_before_ordinary_char_is_literal() {
    assert_eq!(toks("\"a\\nb\""), owned(&["a\\nb"]));
}

#[test]
fn double_quote_backslash_escapes_dollar() {
    assert_eq!(toks("\"a\\$b\""), owned(&["a$b"]));
}

#[test]
fn double_quote_backslash_escapes_backslash() {
    assert_eq!(toks("\"a\\\\b\""), owned(&["a\\b"]));
}

#[test]
fn quoted_empty_string_is_dropped() {
    assert_eq!(toks("a '' b"), owned(&["a", "b"]));
}

#[test]
fn quotes_glue_to_surrounding_word() {
    assert_eq!(toks("a'b c'd"), owned(&["ab cd"]));
}

#[test]
fn requote_round_trip_on_concrete_line() {
    let first = toks("echo 'a b' c");
    let rejoined = first
        .iter()
        .map(|t| format!("'{}'", t))
        .collect::<Vec<String>>()
        .join(" ");
    assert_eq!(rejoined, "'echo' 'a b' 'c'");
    assert_eq!(toks(&rejoined), first);
}
