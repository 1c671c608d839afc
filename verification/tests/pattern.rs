use treetop::pattern::Pattern;

#[test]
fn the_empty_pattern_matches_everything() {
    let pattern = Pattern::empty().unwrap();
    assert_eq!(pattern.as_str(), "");
    assert!(pattern.is_match(""));
    assert!(pattern.is_match("anything"));
    assert!(matches!(pattern, Pattern::Compiled { .. }));
}

#[test]
fn a_pattern_matches_where_its_expression_matches() {
    let pattern = Pattern::new(regex::Regex::new("b+c").unwrap());
    assert_eq!(pattern.as_str(), "b+c");
    assert!(pattern.is_match("abbbcd"));
    assert!(pattern.is_match("bc"));
    assert!(!pattern.is_match("b+c"));
    assert!(!pattern.is_match(""));
}

#[test]
fn an_invalid_pattern_matches_nothing() {
    let pattern = Pattern::Invalid {
        text: "a(".to_string(),
    };
    assert_eq!(pattern.as_str(), "a(");
    assert!(!pattern.is_match("a("));
    assert!(!pattern.is_match(""));
    assert!(!pattern.is_match("a"));
}

#[test]
fn editing_compiles_the_text_anew() {
    let mut pattern = Pattern::empty().unwrap();
    pattern.modify(|text: &mut String| text.push('a'));
    assert_eq!(pattern.as_str(), "a");
    assert!(pattern.is_match("xay"));
    assert!(!pattern.is_match("xy"));
    pattern.modify(|text: &mut String| text.push('['));
    assert_eq!(pattern.as_str(), "a[");
    assert!(matches!(pattern, Pattern::Invalid { .. }));
    assert!(!pattern.is_match("a["));
    assert!(!pattern.is_match("a"));
    pattern.modify(|text: &mut String| text.push_str("bc]"));
    assert_eq!(pattern.as_str(), "a[bc]");
    assert!(matches!(pattern, Pattern::Compiled { .. }));
    assert!(pattern.is_match("ac"));
    assert!(!pattern.is_match("ad"));
    pattern.modify(|text: &mut String| {
        text.pop();
    });
    assert_eq!(pattern.as_str(), "a[bc");
    assert!(matches!(pattern, Pattern::Invalid { .. }));
    pattern.modify(|text: &mut String| text.clear());
    assert_eq!(pattern.as_str(), "");
    assert!(pattern.is_match("anything"));
}
