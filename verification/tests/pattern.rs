use porc::pattern::{Regex, ValidatedRegexString};

#[test]
fn the_empty_pattern_matches_everything() {
    let regex = Regex::empty().unwrap();
    assert_eq!(regex.as_str(), "");
    assert!(regex.is_match(""));
    assert!(regex.is_match("anything"));
}

#[test]
fn a_pattern_matches_anywhere_and_in_any_case() {
    let regex = Regex::new("sh$").unwrap();
    assert_eq!(regex.as_str(), "sh$");
    assert!(regex.is_match("zsh"));
    assert!(regex.is_match("ZSH"));
    assert!(regex.is_match("bash"));
    assert!(!regex.is_match("shell"));
    assert!(matches!(regex, Regex::Regex { .. }));
}

#[test]
fn a_pattern_that_does_not_compile_is_refused() {
    let error = Regex::new("(").unwrap_err();
    assert_eq!(error.pattern, "(");
    assert!(matches!(error.cause, regex::Error::Syntax(_)));
    assert!(error.cause.to_string().contains("unclosed group"));
    let error = ValidatedRegexString::new("a{2,1}").unwrap_err();
    assert_eq!(error.pattern, "a{2,1}");
    assert!(matches!(error.cause, regex::Error::Syntax(_)));
}

#[test]
fn a_pattern_that_is_too_large_is_refused() {
    let error = Regex::new("\\w{1000}{1000}").unwrap_err();
    assert_eq!(error.pattern, "\\w{1000}{1000}");
    assert!(matches!(error.cause, regex::Error::CompiledTooBig(_)));
}

#[test]
fn a_validated_pattern_becomes_a_matcher() {
    let valid = ValidatedRegexString::new("^por").unwrap();
    let regex = valid.into_regex();
    assert_eq!(regex.as_str(), "^por");
    assert!(regex.is_match("Porc"));
    assert!(!regex.is_match("sporc"));
}

#[test]
fn lenient_never_fails() {
    let regex = Regex::lenient("[a-".to_string());
    assert!(matches!(regex, Regex::Invalid { .. }));
    assert_eq!(regex.as_str(), "[a-");
    assert!(!regex.is_match("a"));
    assert!(!regex.is_match("[a-"));
    assert!(!regex.is_match(""));
    let regex = Regex::lenient("[a-c]".to_string());
    assert!(matches!(regex, Regex::Regex { .. }));
    assert!(regex.is_match("B"));
    assert!(!regex.is_match("d"));
}

#[test]
fn modify_compiles_what_the_edit_leaves() {
    let mut regex = Regex::empty().unwrap();
    regex.modify(|text| text.push('('));
    assert_eq!(regex.as_str(), "(");
    assert!(matches!(regex, Regex::Invalid { .. }));
    assert!(!regex.is_match("a"));
    regex.modify(|text| text.push_str("a)"));
    assert_eq!(regex.as_str(), "(a)");
    assert!(matches!(regex, Regex::Regex { .. }));
    assert!(regex.is_match("bar"));
    assert!(!regex.is_match("box"));
    regex.modify(|text| {
        text.pop();
    });
    assert_eq!(regex.as_str(), "(a");
    assert!(!regex.is_match("bar"));
    regex.modify(|text| text.clear());
    assert_eq!(regex.as_str(), "");
    assert!(regex.is_match("box"));
}

#[test]
fn push_and_pop_edit_the_end() {
    let mut regex = Regex::empty().unwrap();
    regex.pop();
    assert_eq!(regex.as_str(), "");
    regex.push('o');
    regex.push('x');
    assert_eq!(regex.as_str(), "ox");
    assert!(regex.is_match("BOX"));
    regex.pop();
    assert_eq!(regex.as_str(), "o");
    regex.push('é');
    regex.pop();
    assert_eq!(regex.as_str(), "o");
}
