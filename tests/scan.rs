use file_core::{scan_bytes, PatternSet, ScanError};

fn pats(p: &[&str]) -> Vec<String> {
    p.iter().map(|s| s.to_string()).collect()
}

#[test]
fn words_on_two_lines() {
    let r = scan_bytes(&pats(&["wor\\w+", "ba\\w+"]), b"hello world\nfoo bar\n").unwrap();
    assert_eq!(r, vec!["world".to_string(), "bar".to_string()]);
}

#[test]
fn no_patterns_find_nothing() {
    assert!(scan_bytes(&pats(&[]), b"hello world\nfoo bar\n").unwrap().is_empty());
    assert!(scan_bytes(&pats(&[]), b"").unwrap().is_empty());
}

#[test]
fn invalid_pattern_is_reported_first() {
    match scan_bytes(&pats(&["not a valid regex((("]), b"x\n") {
        Err(ScanError::Pattern(e)) => {
            assert_eq!(e.index, 0);
            assert_eq!(e.pattern, "not a valid regex(((");
            assert!(!e.message.is_empty());
        }
        other => panic!("unexpected {:?}", other),
    }
    // The pattern fault wins over a line that is not text.
    match scan_bytes(&pats(&["a", "(", "["]), &[0xff, b'\n']) {
        Err(ScanError::Pattern(e)) => assert_eq!(e.index, 1),
        other => panic!("unexpected {:?}", other),
    }
    assert!(PatternSet::compile(&pats(&["ok", "(("])).is_err());
}

#[test]
fn line_that_is_not_text_is_reported() {
    match scan_bytes(&pats(&["a"]), b"abc\n\xff\xfe\nabc\n") {
        Err(ScanError::NotText { line }) => assert_eq!(line, 1),
        other => panic!("unexpected {:?}", other),
    }
}

#[test]
fn matches_are_grouped_by_pattern_within_a_line() {
    let r = scan_bytes(&pats(&["b", "a"]), b"ab ba\nb").unwrap();
    assert_eq!(r, vec!["b", "b", "a", "a", "b"]);
}

#[test]
fn duplicate_patterns_match_twice() {
    let r = scan_bytes(&pats(&["o", "o"]), b"foo").unwrap();
    assert_eq!(r, vec!["o", "o", "o", "o"]);
}

#[test]
fn line_endings_are_not_part_of_lines() {
    let r = scan_bytes(&pats(&["\\w+$", "^\\w+"]), b"one two\r\nthree").unwrap();
    assert_eq!(r, vec!["two", "one", "three", "three"]);
    let r = scan_bytes(&pats(&["\\r"]), b"a\r\nb\rc\n").unwrap();
    assert_eq!(r, vec!["\r"]);
}

#[test]
fn empty_matches_are_passed_through() {
    let r = scan_bytes(&pats(&["x*"]), b"ab").unwrap();
    assert_eq!(r, vec!["", "", ""]);
}

#[test]
fn every_match_is_a_substring_of_its_line() {
    let data = b"alpha beta 12 gamma\n345 delta\n\nepsilon 6789\n";
    let p = pats(&["\\d+", "[a-z]{5}"]);
    let r = scan_bytes(&p, data).unwrap();
    let text = std::str::from_utf8(data).unwrap();
    for m in &r {
        assert!(text.lines().any(|l| l.contains(m.as_str())));
    }
    assert_eq!(r, vec!["12", "alpha", "gamma", "345", "delta", "6789", "epsil"]);
}

#[test]
fn scan_line_appends() {
    let set = PatternSet::compile(&pats(&["[0-9]", "z"])).unwrap();
    let mut out = vec!["kept".to_string()];
    set.scan_line("a1z2", &mut out);
    assert_eq!(out, vec!["kept", "1", "2", "z"]);
}
