use install_nothing::log_corpus::LogCorpus;

#[test]
fn parse_skips_blank_lines() {
    let logs = LogCorpus::parse("one\n\n  \ntwo\r\nthree");
    assert_eq!(logs, vec!["one", "two", "three"]);
}

#[test]
fn parse_edges() {
    assert!(LogCorpus::parse("").is_empty());
    assert!(LogCorpus::parse("\n\n\t\n").is_empty());
    assert_eq!(LogCorpus::parse("a\n"), vec!["a"]);
    assert_eq!(LogCorpus::parse("a\r"), vec!["a\r"]);
    assert_eq!(LogCorpus::parse("  indented  \n"), vec!["  indented  "]);
    assert_eq!(LogCorpus::parse("x\u{3000}\n\u{3000}\n"), vec!["x\u{3000}"]);
}

#[test]
fn parse_agrees_with_lines() {
    let text = "checking for gcc... yes\r\n\r\n  CC  foo.o\nconfigure: error: bad\n\u{a0}\nend";
    let expected: Vec<String> = text
        .lines()
        .filter(|l| !l.trim().is_empty())
        .map(String::from)
        .collect();
    assert_eq!(LogCorpus::parse(text), expected);
}

#[test]
fn corpus_keeps_both_transcripts() {
    let corpus = LogCorpus::new("ok 1\nok 2\n", "\nfail\n");
    assert_eq!(corpus.success_logs(), &["ok 1".to_string(), "ok 2".to_string()]);
    assert_eq!(corpus.error_logs(), &["fail".to_string()]);
}
