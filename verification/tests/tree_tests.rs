use cppdoc::comment::parse_comment;
use cppdoc::config::{Config, Input, Output, Pages, Project};
use cppdoc::index::SymbolIndex;
use cppdoc::render::HighlightState;
use cppdoc::tree::{Function, Namespace, Record, process_namespace};

fn test_config() -> Config {
    Config {
        project: Project { name: "demo".to_string(), version: "0.1".to_string() },
        input: Input { glob: "*.hpp".to_string(), compiler_arguments: vec![] },
        pages: Pages { index: None, extra: None, book: None },
        output: Output {
            static_dir: "static".to_string(),
            path: "out".to_string(),
            root_namespace: None,
            base_url: "docs".to_string(),
            enable_mermaid: true,
            bundle_mermaid: false,
            bundle_minisearch: false,
            theme: None,
            theme_file: None,
            theme_dump_file: None,
        },
        doctests: None,
    }
}

#[test]
fn namespace_comments_are_rendered_recursively() {
    let ns = Namespace {
        name: "outer".to_string(),
        comment: parse_comment("/// The outer scope\n///\n/// With *body*".to_string()),
        functions: vec![Function {
            name: "f".to_string(),
            comment: parse_comment("/// Does things".to_string()),
        }],
        records: vec![Record {
            name: "R".to_string(),
            comment: None,
            methods: vec![Function { name: "m".to_string(), comment: None }],
            ctor: vec![],
        }],
        enums: vec![],
        namespaces: vec![Namespace {
            name: "inner".to_string(),
            comment: None,
            functions: vec![],
            records: vec![],
            enums: vec![],
            namespaces: vec![],
        }],
    };
    let mut doctests = Vec::new();
    let out = process_namespace(
        &ns,
        &SymbolIndex::new(),
        &mut doctests,
        &test_config(),
        &HighlightState::new(),
    )
    .unwrap();
    assert_eq!(out.name, "outer");
    let c = out.comment.unwrap();
    assert!(c.brief.contains("The outer scope"));
    assert!(c.description.contains("<em>body</em>"));
    assert_eq!(out.functions.len(), 1);
    assert!(out.functions[0].comment.as_ref().unwrap().brief.contains("Does things"));
    assert_eq!(out.records[0].methods.len(), 1);
    assert_eq!(out.namespaces.len(), 1);
    assert!(doctests.is_empty());
}
