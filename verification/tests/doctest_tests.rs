use cppdoc::doctest::{Doctest, VerifyPhase, build_invocation, PREPENDED_CODE};

#[test]
fn normalization_collects_directives() {
    let d = Doctest::new("@include <iostream>\nstd::cout<<1;\n".to_string(), true);
    assert_eq!(d.includes, vec!["<iostream>".to_string()]);
    assert_eq!(d.display_code, "std::cout<<1;");
    assert_eq!(d.code, "std::cout<<1;");
    assert!(d.add_main);
}

#[test]
fn hidden_lines_stay_out_of_display() {
    let d = Doctest::new("@int hidden = 1;\nvisible();\n@int more = 2;\n".to_string(), false);
    assert_eq!(d.display_code, "visible();");
    assert_eq!(d.code, "int hidden = 1;\nvisible();\nint more = 2;");
    assert!(!d.add_main);
    assert!(d.includes.is_empty());
}

#[test]
fn interleaving_of_lines_is_preserved() {
    let d = Doctest::new("a();\n@b();\nc();\n".to_string(), true);
    assert_eq!(d.code, "a();\nb();\nc();");
    assert_eq!(d.display_code, "a();\nc();");
}

#[test]
fn empty_fragment_normalizes_to_empty() {
    let d = Doctest::new(String::new(), true);
    assert_eq!(d.code, "");
    assert_eq!(d.display_code, "");
    assert!(d.includes.is_empty());
}

#[test]
fn full_source_lays_out_headers_preamble_and_body() {
    let d = Doctest::new("@include <vector>\nint x;\n".to_string(), false);
    let src = d.full_source();
    assert!(src.starts_with("#include <vector>\n"));
    assert!(src.contains("#define ASSERT_EQ"));
    assert!(src.ends_with("int x;"));
    assert!(!src.contains("int main()"));
}

#[test]
fn full_source_wraps_an_entry_point_on_request() {
    let d = Doctest::new("int y = 2;\n".to_string(), true);
    let src = d.full_source();
    assert!(src.contains("\nint main() {\nint y = 2;\n return 0;}"));
    assert!(src.contains(PREPENDED_CODE));
}

#[test]
fn invocation_substitutes_both_placeholders() {
    let words = vec![
        "g++".to_string(),
        "{file}".to_string(),
        "-o".to_string(),
        "{out}".to_string(),
    ];
    let cmd = build_invocation(&words, "in.cpp", "a.out");
    assert_eq!(cmd, "g++ in.cpp -o a.out");
}

#[test]
fn compile_failure_halts_every_later_fragment() {
    let mut phase = VerifyPhase::new(3);
    assert_eq!(phase.current(), Some(0));
    phase.compile_failed();
    assert_eq!(phase.current(), None);
}

#[test]
fn run_failure_does_not_halt_the_phase() {
    let mut phase = VerifyPhase::new(2);
    assert_eq!(phase.current(), Some(0));
    // the first fragment's run failed: the phase still advances
    phase.advance();
    assert_eq!(phase.current(), Some(1));
    phase.advance();
    assert_eq!(phase.current(), None);
}
