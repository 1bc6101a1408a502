use bot_common::{TrimmedWords, Words, WordsStorage};

fn collect_words(input: WordsStorage) -> Vec<String> {
    let mut it = Words::new(input);
    let mut out = Vec::new();
    while let Some(tok) = it.next() {
        out.push(tok);
    }
    out
}

fn collect_trimmed(input: &str) -> Vec<&str> {
    let mut it = TrimmedWords::new(input);
    let mut out = Vec::new();
    while let Some(tok) = it.next() {
        out.push(tok);
    }
    out
}

#[test]
fn test_trimmed_words() {
    let out = collect_trimmed("hello, do you feel alive?");
    assert_eq!(out, vec!["hello", "do", "you", "feel", "alive"]);
}

#[test]
fn test_trimmed_words_unicode() {
    let out = collect_trimmed(" 👌👌 foo");
    assert_eq!(vec![String::from("👌👌"), String::from("foo")], out);
}

#[test]
fn test_split_escape() {
    let out = collect_words(WordsStorage::from("   foo bar   baz   "));
    assert_eq!(out, vec!["foo", "bar", "baz"]);
}

#[test]
fn test_split_quoted() {
    let out = collect_words(WordsStorage::from("   foo bar   \"baz  biz\" "));
    assert_eq!(out, vec!["foo", "bar", "baz  biz"]);

    let out = collect_words(WordsStorage::from("   foo\"baz  biz\" "));
    assert_eq!(out, vec!["foobaz  biz"]);

    let out = collect_words(WordsStorage::from("   foo\\\"baz  biz"));
    assert_eq!(out, vec!["foo\"baz", "biz"]);

    // test that rest kinda works.
    let mut it = Words::new(WordsStorage::from("   foo\\\"baz  biz \"is good\""));
    assert_eq!(it.next().as_deref(), Some("foo\"baz"));
    assert_eq!(it.rest(), "biz \"is good\"");
}

#[test]
fn test_unicode() {
    let out = collect_words(WordsStorage::from("👌👌 foo"));
    assert_eq!(vec![String::from("👌👌"), String::from("foo")], out);
}
