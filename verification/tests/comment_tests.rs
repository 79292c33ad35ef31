use cppdoc::comment::parse_comment;
use cppdoc::comment::remove_prefix_and_clean;

#[test]
fn hidden_line_sentinel_yields_none() {
    assert!(parse_comment("/// #[doc(hidden)]".to_string()).is_none());
}

#[test]
fn hidden_block_sentinel_yields_none() {
    assert!(parse_comment("/**< #[doc(hidden)]*/".to_string()).is_none());
}

#[test]
fn hidden_sentinel_with_surrounding_whitespace_yields_none() {
    assert!(parse_comment("  /// #[doc(hidden)]  \n".to_string()).is_none());
}

#[test]
fn trailing_block_brief() {
    let c = parse_comment("/**< Quick summary */".to_string()).unwrap();
    assert_eq!(c.brief, "Quick summary");
    assert_eq!(c.description, "");
    assert!(c.impl_refs.is_none());
}

#[test]
fn line_comment_brief_and_description() {
    let c = parse_comment("/// Brief line\n///\n/// Body text".to_string()).unwrap();
    assert_eq!(c.brief, "Brief line");
    assert_eq!(c.description, "Body text");
    assert!(c.impl_refs.is_none());
}

#[test]
fn brief_joins_consecutive_lines_with_spaces() {
    let c = parse_comment("/// One\n/// Two\n///\n/// Rest".to_string()).unwrap();
    assert_eq!(c.brief, "One Two");
    assert_eq!(c.description, "Rest");
}

#[test]
fn brief_never_holds_a_newline() {
    let c = parse_comment("/// alpha\n/// beta\n/// gamma".to_string()).unwrap();
    assert!(!c.brief.contains('\n'));
    assert_eq!(c.brief, "alpha beta gamma");
}

#[test]
fn impl_directive_collected_and_excluded() {
    let c = parse_comment("/// Brief\n///\n/// Body\n/// \\impl{a, b}".to_string()).unwrap();
    assert_eq!(c.brief, "Brief");
    assert_eq!(c.description, "Body");
    assert_eq!(c.impl_refs, Some(vec!["a".to_string(), "b".to_string()]));
    assert!(!c.description.contains("\\impl"));
}

#[test]
fn last_impl_directive_wins() {
    let c = parse_comment(
        "/// Brief\n///\n/// \\impl{x}\n/// Body\n/// \\impl{y, z}".to_string(),
    )
    .unwrap();
    assert_eq!(c.impl_refs, Some(vec!["y".to_string(), "z".to_string()]));
    assert_eq!(c.description, "Body");
}

#[test]
fn block_comment_collects_lines() {
    let c = parse_comment("/**\n * Brief\n * More words\n */".to_string()).unwrap();
    assert_eq!(c.brief, "Brief");
    assert_eq!(c.description, "More words");
}

#[test]
fn trailing_member_marker_takes_precedence() {
    let c = parse_comment("///< member note".to_string()).unwrap();
    assert_eq!(c.brief, "member note");
}

#[test]
fn double_slash_member_marker_recognized() {
    let c = parse_comment("//< short note".to_string()).unwrap();
    assert_eq!(c.brief, "short note");
}

#[test]
fn empty_block_yields_empty_comment() {
    let c = parse_comment("".to_string()).unwrap();
    assert_eq!(c.brief, "");
    assert_eq!(c.description, "");
    assert!(c.impl_refs.is_none());
}

#[test]
fn unmarked_text_degrades_to_trim_and_keep() {
    let c = parse_comment("  just words  ".to_string()).unwrap();
    assert_eq!(c.brief, "just words");
}

#[test]
fn blank_lines_never_appear_in_description() {
    let c = parse_comment("/// B\n///\n/// one\n///\n///\n/// two".to_string()).unwrap();
    assert_eq!(c.description, "one\ntwo");
}

#[test]
fn remove_prefix_and_clean_strips_and_trims() {
    assert_eq!(remove_prefix_and_clean("/// x ", "///"), "x");
    assert_eq!(remove_prefix_and_clean("  y ", "///"), "y");
}

#[test]
fn block_content_on_closing_line_is_kept() {
    let c = parse_comment("/**\n * Brief\n * tail words */".to_string()).unwrap();
    assert_eq!(c.brief, "Brief");
    assert_eq!(c.description, "tail words");
}

#[test]
fn impl_payload_stops_at_closing_brace() {
    let c = parse_comment("/// B\n///\n/// \\impl{one,two}".to_string()).unwrap();
    assert_eq!(c.impl_refs, Some(vec!["one".to_string(), "two".to_string()]));
}
