use cppdoc::book::{Page, Segment, Summary, assign_numbers, number_page, parse_summary};

fn page(summary: &Summary, i: usize) -> &Page {
    match &summary.segments[i] {
        Segment::Page(p) => p,
        Segment::Section(t) => panic!("expected a page, found section {t}"),
    }
}

#[test]
fn nested_outline_numbering() {
    let s = parse_summary("- [Intro](intro.md)\n  - [Sub](sub.md)\n", "book");
    assert_eq!(s.segments.len(), 1);
    let p = page(&s, 0);
    assert_eq!(p.name, "Intro");
    assert_eq!(p.path, "book/intro.md");
    assert!(p.numbered);
    assert_eq!(p.number, "1");
    assert_eq!(p.sub_pages.len(), 1);
    assert_eq!(p.sub_pages[0].name, "Sub");
    assert_eq!(p.sub_pages[0].path, "book/sub.md");
    assert_eq!(p.sub_pages[0].number, "1.1");
    assert!(p.sub_pages[0].numbered);
}

#[test]
fn bare_link_outside_lists_is_unnumbered() {
    let s = parse_summary("[FAQ](faq.md)\n", "book");
    assert_eq!(s.segments.len(), 1);
    let p = page(&s, 0);
    assert_eq!(p.name, "FAQ");
    assert_eq!(p.path, "book/faq.md");
    assert!(!p.numbered);
    assert_eq!(p.number, "");
}

#[test]
fn second_child_gets_second_dotted_number() {
    let s = parse_summary("- [Top](t.md)\n  - [A](a.md)\n  - [B](b.md)\n", "book");
    let p = page(&s, 0);
    assert_eq!(p.sub_pages.len(), 2);
    assert_eq!(p.sub_pages[0].number, "1.1");
    assert_eq!(p.sub_pages[1].number, "1.2");
}

#[test]
fn headings_become_sections_without_moving_the_counter() {
    let s = parse_summary("# Part One\n\n- [A](a.md)\n\n# Part Two\n\n- [B](b.md)\n", "d");
    assert_eq!(s.segments.len(), 4);
    assert_eq!(s.segments[0], Segment::Section("Part One".to_string()));
    assert_eq!(page(&s, 1).number, "1");
    assert_eq!(s.segments[2], Segment::Section("Part Two".to_string()));
    assert_eq!(page(&s, 3).number, "2");
}

#[test]
fn reordering_two_pages_swaps_their_numbers() {
    let s1 = parse_summary("- [A](a.md)\n- [B](b.md)\n", "d");
    let s2 = parse_summary("- [B](b.md)\n- [A](a.md)\n", "d");
    assert_eq!(page(&s1, 0).name, "A");
    assert_eq!(page(&s1, 0).number, "1");
    assert_eq!(page(&s1, 1).name, "B");
    assert_eq!(page(&s1, 1).number, "2");
    assert_eq!(page(&s2, 0).name, "B");
    assert_eq!(page(&s2, 0).number, "1");
    assert_eq!(page(&s2, 1).name, "A");
    assert_eq!(page(&s2, 1).number, "2");
}

#[test]
fn rebuilding_from_the_same_text_is_identical() {
    let text = "# Guide\n\n- [Intro](intro.md)\n  - [Sub](sub.md)\n- [More](more.md)\n";
    let s1 = parse_summary(text, "book");
    let s2 = parse_summary(text, "book");
    assert_eq!(s1, s2);
}

#[test]
fn absolute_destination_ignores_base() {
    let s = parse_summary("[Root](/abs.md)\n", "book");
    assert_eq!(page(&s, 0).path, "/abs.md");
}

#[test]
fn number_page_writes_dotted_path() {
    let p = Page {
        name: "X".to_string(),
        path: "x.md".to_string(),
        sub_pages: vec![],
        number: String::new(),
        numbered: true,
    };
    let numbered = number_page(&p, &vec![3, 2]);
    assert_eq!(numbered.number, "3.2");
}

#[test]
fn assign_numbers_numbers_siblings_in_order() {
    let mk = |n: &str| Page {
        name: n.to_string(),
        path: format!("{n}.md"),
        sub_pages: vec![],
        number: String::new(),
        numbered: true,
    };
    let numbered = assign_numbers(&vec![mk("a"), mk("b")], &vec![]);
    assert_eq!(numbered[0].number, "1");
    assert_eq!(numbered[1].number, "2");
}

#[test]
fn empty_outline_yields_empty_summary() {
    let s = parse_summary("", "book");
    assert!(s.segments.is_empty());
}

#[test]
fn base_directory_with_trailing_separator() {
    let s = parse_summary("[A](a.md)\n", "book/");
    assert_eq!(page(&s, 0).path, "book/a.md");
}

#[test]
fn link_less_item_text_does_not_leak_into_next_name() {
    let s = parse_summary("- stray words\n- [A](a.md)\n", "book");
    let names: Vec<&str> = s
        .segments
        .iter()
        .filter_map(|seg| match seg {
            Segment::Page(p) => Some(p.name.as_str()),
            Segment::Section(_) => None,
        })
        .collect();
    assert_eq!(names, vec!["A"]);
}
