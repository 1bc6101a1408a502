use bot_common::{words, TrimmedWords, Words, WordsStorage};
use std::sync::Arc;

fn collect_words(input: WordsStorage) -> Vec<String> {
    let mut it = Words::new(input);
    let mut out = Vec::new();
    while let Some(tok) = it.next() {
        out.push(tok);
    }
    out
}

fn collect_trimmed(input: &str) -> Vec<&str> {
    let mut it = TrimmedWords::new(input);
    let mut out = Vec::new();
    while let Some(tok) = it.next() {
        out.push(tok);
    }
    out
}

#[test]
fn test_escape_table() {
    // \t, \r and \n decode to control characters; anything else after a
    // backslash stands for itself.
    let out = collect_words(WordsStorage::from("a\\tb a\\rb a\\nb a\\\\b a\\xb"));
    assert_eq!(out, vec!["a\tb", "a\rb", "a\nb", "a\\b", "axb"]);
}

#[test]
fn test_trailing_backslash_dropped() {
    let out = collect_words(WordsStorage::from("foo\\"));
    assert_eq!(out, vec!["foo"]);
}

#[test]
fn test_unterminated_quote() {
    let out = collect_words(WordsStorage::from("\"foo  bar"));
    assert_eq!(out, vec!["foo  bar"]);
}

#[test]
fn test_empty_quotes_yield_no_token() {
    let out = collect_words(WordsStorage::from("a \"\" b"));
    assert_eq!(out, vec!["a", "b"]);
}

#[test]
fn test_empty_input() {
    assert_eq!(collect_words(WordsStorage::from("")), Vec::<String>::new());
    assert_eq!(collect_trimmed(""), Vec::<&str>::new());
}

#[test]
fn test_whitespace_only_input() {
    // Leading, trailing and repeated whitespace never produce empty
    // tokens.
    assert_eq!(collect_words(WordsStorage::from("  \t \r\n ")), Vec::<String>::new());
    assert_eq!(collect_trimmed("  ,, .. "), Vec::<&str>::new());
}

#[test]
fn test_string_accessor() {
    let it = Words::new(WordsStorage::from("  foo bar"));
    assert_eq!(it.string(), "  foo bar");
}

#[test]
fn test_rest_at_start_and_end() {
    let mut it = Words::new(WordsStorage::from("foo"));
    assert_eq!(it.rest(), "foo");
    assert_eq!(it.next().as_deref(), Some("foo"));
    assert_eq!(it.rest(), "");
    assert_eq!(it.next(), None);
}

#[test]
fn test_rest_after_next() {
    let mut it = Words::new(WordsStorage::from("  foo   bar baz"));
    assert_eq!(it.next().as_deref(), Some("foo"));
    assert_eq!(it.rest(), "bar baz");
}

#[test]
fn test_shared_storage() {
    let line = Arc::new(String::from("hello world"));
    let out = collect_words(WordsStorage::from(line));
    assert_eq!(out, vec!["hello", "world"]);
}

#[test]
fn test_shared_storage_two_instances() {
    // Two independently constructed tokenizers may share one backing
    // string; each keeps its own cursor and buffer.
    let line = Arc::new(String::from("a b"));
    let out1 = collect_words(WordsStorage::from(Arc::clone(&line)));
    let out2 = collect_words(WordsStorage::from(line));
    assert_eq!(out1, out2);
    assert_eq!(out1, vec!["a", "b"]);
}

#[test]
fn test_words_constructor() {
    let mut it = words(WordsStorage::from("one two"));
    assert_eq!(it.next().as_deref(), Some("one"));
    assert_eq!(it.next().as_deref(), Some("two"));
    assert_eq!(it.next(), None);
}

#[test]
fn test_same_input_tokenizes_identically() {
    let a = collect_words(WordsStorage::from("  foo \"bar  baz\" \\qux "));
    let b = collect_words(WordsStorage::from("  foo \"bar  baz\" \\qux "));
    assert_eq!(a, b);
}

#[test]
fn test_trimmed_punctuation_separators() {
    assert_eq!(collect_trimmed("a,b.c!d"), vec!["a", "b", "c", "d"]);
}

#[test]
fn test_trimmed_ignores_quoting() {
    // The simple splitter has no quote handling: quotes are ordinary
    // punctuation separators.
    assert_eq!(collect_trimmed("say \"hi there\""), vec!["say", "hi", "there"]);
}

#[test]
fn test_is_trim_separator() {
    assert!(bot_common::is_trim_separator(' '));
    assert!(bot_common::is_trim_separator('\t'));
    assert!(bot_common::is_trim_separator(','));
    assert!(bot_common::is_trim_separator('!'));
    assert!(bot_common::is_trim_separator('\u{3000}'));
    assert!(!bot_common::is_trim_separator('a'));
    assert!(!bot_common::is_trim_separator('7'));
    assert!(!bot_common::is_trim_separator('👌'));
}

#[test]
fn test_rest_before_any_next() {
    let it = Words::new(WordsStorage::from("  a b"));
    assert_eq!(it.rest(), "  a b");
}

#[test]
fn test_concatenation_across_modes() {
    // An unquoted prefix glued to a quoted run forms one token.
    let out = collect_words(WordsStorage::from("pre\"in quotes\"post end"));
    assert_eq!(out, vec!["prein quotespost", "end"]);
}
