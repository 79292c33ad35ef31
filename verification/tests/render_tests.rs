use cppdoc::config::{Config, Doctest as DoctestConfig, Input, Output, Pages, Project};
use cppdoc::index::SymbolIndex;
use cppdoc::render::{HighlightState, RenderError, get_namespace_path, get_path_for_name,
    process_markdown};

fn test_config() -> Config {
    Config {
        project: Project { name: "demo".to_string(), version: "0.1".to_string() },
        input: Input { glob: "src/**/*.hpp".to_string(), compiler_arguments: vec![] },
        pages: Pages { index: None, extra: None, book: None },
        output: Output {
            static_dir: "static".to_string(),
            path: "out".to_string(),
            root_namespace: None,
            base_url: "base".to_string(),
            enable_mermaid: true,
            bundle_mermaid: false,
            bundle_minisearch: false,
            theme: None,
            theme_file: None,
            theme_dump_file: None,
        },
        doctests: Some(DoctestConfig { enable: false, run: None, compiler_invocation: None }),
    }
}

#[test]
fn function_name_resolves_via_naming_rule() {
    let mut index = SymbolIndex::new();
    index.insert("ns::f".to_string(), "function".to_string());
    assert_eq!(get_path_for_name("ns::f", &index), Some("ns/function.f".to_string()));
}

#[test]
fn namespace_kind_keeps_scope_structure() {
    let mut index = SymbolIndex::new();
    index.insert("a::b".to_string(), "namespace".to_string());
    assert_eq!(get_path_for_name("a::b", &index), Some("a/b".to_string()));
}

#[test]
fn unscoped_name_has_no_directory() {
    let mut index = SymbolIndex::new();
    index.insert("widget".to_string(), "class".to_string());
    assert_eq!(get_path_for_name("widget", &index), Some("class.widget".to_string()));
}

#[test]
fn leading_scope_prefix_is_stripped() {
    let mut index = SymbolIndex::new();
    index.insert("::a::f".to_string(), "function".to_string());
    assert_eq!(get_path_for_name("::a::f", &index), Some("a/function.f".to_string()));
}

#[test]
fn slash_in_basename_is_replaced() {
    let mut index = SymbolIndex::new();
    index.insert("ops::operator/".to_string(), "function".to_string());
    assert_eq!(
        get_path_for_name("ops::operator/", &index),
        Some("ops/function.operatorslash".to_string())
    );
}

#[test]
fn absent_name_resolves_to_nothing() {
    let index = SymbolIndex::new();
    assert_eq!(get_path_for_name("nope", &index), None);
}

#[test]
fn later_index_entry_shadows_earlier() {
    let mut index = SymbolIndex::new();
    index.insert("x".to_string(), "class".to_string());
    index.insert("x".to_string(), "struct".to_string());
    assert_eq!(get_path_for_name("x", &index), Some("struct.x".to_string()));
}

#[test]
fn namespace_path_replaces_separators() {
    assert_eq!(get_namespace_path("a::b::c"), "a/b/c");
}

#[test]
fn markdown_renders_plain_text() {
    let mut doctests = Vec::new();
    let page = process_markdown(
        "# Hello\n\nworld",
        &SymbolIndex::new(),
        &mut doctests,
        &test_config(),
        &HighlightState::new(),
    )
    .unwrap();
    assert!(page.content.contains("<h1>Hello</h1>"));
    assert!(page.content.contains("world"));
    assert!(doctests.is_empty());
}

#[test]
fn metadata_title_is_extracted() {
    let mut doctests = Vec::new();
    let page = process_markdown(
        "---\ntitle: My Page\n---\n\nBody\n",
        &SymbolIndex::new(),
        &mut doctests,
        &test_config(),
        &HighlightState::new(),
    )
    .unwrap();
    assert_eq!(page.title, "My Page");
    assert!(page.content.contains("Body"));
    assert!(!page.content.contains("My Page"));
}

#[test]
fn cpp_fence_is_captured_exactly_once() {
    let mut doctests = Vec::new();
    let page = process_markdown(
        "```cpp\n@include <iostream>\nstd::cout<<1;\n```\n",
        &SymbolIndex::new(),
        &mut doctests,
        &test_config(),
        &HighlightState::new(),
    )
    .unwrap();
    assert_eq!(doctests.len(), 1);
    assert_eq!(doctests[0].includes, vec!["<iostream>".to_string()]);
    assert_eq!(doctests[0].display_code, "std::cout<<1;");
    assert!(doctests[0].add_main);
    // the display text is what gets highlighted: the directive is gone
    assert!(!page.content.contains("@include"));
    assert!(page.content.contains("<span"));
}

#[test]
fn nomain_fence_skips_the_entry_point() {
    let mut doctests = Vec::new();
    process_markdown(
        "```nomain\nint main() { return 0; }\n```\n",
        &SymbolIndex::new(),
        &mut doctests,
        &test_config(),
        &HighlightState::new(),
    )
    .unwrap();
    assert_eq!(doctests.len(), 1);
    assert!(!doctests[0].add_main);
}

#[test]
fn mermaid_fence_passes_through_without_capture() {
    let mut doctests = Vec::new();
    let page = process_markdown(
        "```mermaid\ngraph TD;\n```\n",
        &SymbolIndex::new(),
        &mut doctests,
        &test_config(),
        &HighlightState::new(),
    )
    .unwrap();
    assert!(doctests.is_empty());
    assert!(page.content.contains("<div class=\"mermaid\">graph TD;"));
}

#[test]
fn unknown_language_tag_is_fatal() {
    let mut doctests = Vec::new();
    let r = process_markdown(
        "```zzznosuchlanguage\nwhatever\n```\n",
        &SymbolIndex::new(),
        &mut doctests,
        &test_config(),
        &HighlightState::new(),
    );
    assert!(matches!(r, Err(RenderError::UnknownLanguage(_))));
}

#[test]
fn known_reference_link_is_rewritten() {
    let mut index = SymbolIndex::new();
    index.insert("ns::f".to_string(), "function".to_string());
    let mut doctests = Vec::new();
    let page = process_markdown(
        "see [f](::ns::f) here",
        &index,
        &mut doctests,
        &test_config(),
        &HighlightState::new(),
    )
    .unwrap();
    assert!(page.content.contains("<a href=\"base/ns/function.f.html\">"));
    assert!(page.content.contains("</a>"));
}

#[test]
fn unresolved_reference_link_passes_through() {
    let mut doctests = Vec::new();
    let page = process_markdown(
        "see [g](::no::such) here",
        &SymbolIndex::new(),
        &mut doctests,
        &test_config(),
        &HighlightState::new(),
    )
    .unwrap();
    assert!(page.content.contains("::no::such"));
    assert!(!page.content.contains("base/"));
}

#[test]
fn first_title_line_wins() {
    let mut doctests = Vec::new();
    let page = process_markdown(
        "---\nother: x\ntitle: First\ntitle: Second\n---\nBody",
        &SymbolIndex::new(),
        &mut doctests,
        &test_config(),
        &HighlightState::new(),
    )
    .unwrap();
    assert_eq!(page.title, "First");
}

#[test]
fn document_without_metadata_has_empty_title() {
    let mut doctests = Vec::new();
    let page = process_markdown(
        "plain text",
        &SymbolIndex::new(),
        &mut doctests,
        &test_config(),
        &HighlightState::new(),
    )
    .unwrap();
    assert_eq!(page.title, "");
}

#[test]
fn empty_input_renders_to_empty_page() {
    let mut doctests = Vec::new();
    let page = process_markdown(
        "",
        &SymbolIndex::new(),
        &mut doctests,
        &test_config(),
        &HighlightState::new(),
    )
    .unwrap();
    assert_eq!(page.content, "");
    assert_eq!(page.title, "");
    assert!(doctests.is_empty());
}

#[test]
fn rendering_the_same_document_twice_is_identical() {
    let state = HighlightState::new();
    let mut index = SymbolIndex::new();
    index.insert("ns::f".to_string(), "function".to_string());
    let text = "---\ntitle: T\n---\nsee [f](::ns::f)\n\n```cpp\nint x;\n```\n";
    let mut q1 = Vec::new();
    let p1 = process_markdown(text, &index, &mut q1, &test_config(), &state).unwrap();
    let mut q2 = Vec::new();
    let p2 = process_markdown(text, &index, &mut q2, &test_config(), &state).unwrap();
    assert_eq!(p1.content, p2.content);
    assert_eq!(p1.title, p2.title);
    assert_eq!(q1.len(), q2.len());
}
