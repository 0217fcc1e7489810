use mdbook_outline::summary::{
    parse_summary, parse_summary_with_width, ParseError, SectionNumber, StructureRule,
    SummaryItem,
};

fn names(items: &[SummaryItem]) -> Vec<String> {
    items
        .iter()
        .map(|i| match i {
            SummaryItem::Link(l) => l.name.clone(),
            SummaryItem::Separator => "---".to_string(),
        })
        .collect()
}

fn number(item: &SummaryItem) -> Option<Vec<usize>> {
    match item {
        SummaryItem::Link(l) => l.number.as_ref().map(|n| n.0.clone()),
        SummaryItem::Separator => None,
    }
}

#[test]
fn groups_front_numbered_and_back_matter() {
    let text = "# Summary\n\n[Intro](intro.md)\n\n- [One](one.md)\n- [Two](two.md)\n---\n[Outro](outro.md)\n";
    let s = parse_summary(text).unwrap();
    assert_eq!(names(&s.prefix_chapters), vec!["Intro"]);
    assert_eq!(names(&s.numbered_chapters), vec!["One", "Two", "---"]);
    assert_eq!(names(&s.suffix_chapters), vec!["Outro"]);
    assert_eq!(number(&s.prefix_chapters[0]), None);
    assert_eq!(number(&s.numbered_chapters[1]), Some(vec![2]));
    match &s.prefix_chapters[0] {
        SummaryItem::Link(l) => assert_eq!(l.location, "intro.md"),
        _ => panic!("expected a link"),
    }
}

#[test]
fn nested_numbers_extend_the_parent() {
    let text = "- [A](a.md)\n    - [B](b.md)\n    - [C](c.md)\n        * [D](d.md)\n- [E](e.md)\n\t- [F](f.md)\n";
    let s = parse_summary(text).unwrap();
    let a = &s.numbered_chapters[0];
    assert_eq!(number(a), Some(vec![1]));
    let SummaryItem::Link(a) = a else { panic!("expected a link") };
    assert_eq!(names(&a.nested_items), vec!["B", "C"]);
    assert_eq!(number(&a.nested_items[0]), Some(vec![1, 1]));
    assert_eq!(number(&a.nested_items[1]), Some(vec![1, 2]));
    let SummaryItem::Link(c) = &a.nested_items[1] else { panic!("expected a link") };
    assert_eq!(number(&c.nested_items[0]), Some(vec![1, 2, 1]));
    let SummaryItem::Link(e) = &s.numbered_chapters[1] else { panic!("expected a link") };
    assert_eq!(e.number, Some(SectionNumber(vec![2])));
    assert_eq!(number(&e.nested_items[0]), Some(vec![2, 1]));
}

#[test]
fn bare_link_below_a_chapter_is_a_structure_error() {
    let text = "- [A](a.md)\n    [B](b.md)\n";
    assert_eq!(
        parse_summary(text),
        Err(ParseError::Structure { line: 1, rule: StructureRule::BelowRoot })
    );
}

#[test]
fn three_spaces_is_an_indentation_error() {
    let text = "- [A](a.md)\n   - [B](b.md)\n";
    assert_eq!(parse_summary(text), Err(ParseError::Indentation { line: 1 }));
}

#[test]
fn chapter_after_back_matter_is_a_structure_error() {
    let text = "- [A](a.md)\n[Outro](outro.md)\n- [B](b.md)\n";
    assert_eq!(
        parse_summary(text),
        Err(ParseError::Structure { line: 2, rule: StructureRule::ChapterAfterBackMatter })
    );
}

#[test]
fn nesting_under_front_matter_is_a_structure_error() {
    let text = "[Intro](intro.md)\n    - [A](a.md)\n";
    assert_eq!(
        parse_summary(text),
        Err(ParseError::Structure { line: 1, rule: StructureRule::NestedUnderNonChapter })
    );
}

#[test]
fn separator_below_root_is_a_structure_error() {
    let text = "- [A](a.md)\n    ---\n";
    assert_eq!(
        parse_summary(text),
        Err(ParseError::Structure { line: 1, rule: StructureRule::BelowRoot })
    );
}

#[test]
fn prose_and_broken_links_are_skipped() {
    let text = "Some prose.\n- a plain list item\n- [Broken](no-close\n* [Star](star.md#part)\n";
    let s = parse_summary(text).unwrap();
    assert_eq!(names(&s.numbered_chapters), vec!["Star"]);
    match &s.numbered_chapters[0] {
        SummaryItem::Link(l) => {
            assert_eq!(l.location, "star.md#part");
            assert_eq!(l.number, Some(SectionNumber(vec![1])));
        },
        _ => panic!("expected a link"),
    }
}

#[test]
fn custom_indentation_width() {
    let text = "- [A](a.md)\n  - [B](b.md)\n";
    let s = parse_summary_with_width(text, 2).unwrap();
    let SummaryItem::Link(a) = &s.numbered_chapters[0] else { panic!("expected a link") };
    assert_eq!(names(&a.nested_items), vec!["B"]);
    assert_eq!(parse_summary(text), Err(ParseError::Indentation { line: 1 }));
}

#[test]
fn empty_outline() {
    let s = parse_summary("").unwrap();
    assert!(s.prefix_chapters.is_empty());
    assert!(s.numbered_chapters.is_empty());
    assert!(s.suffix_chapters.is_empty());
}

#[test]
fn front_matter_separator_stays_in_front() {
    let s = parse_summary("[Intro](i.md)\n---\n- [A](a.md)\n").unwrap();
    assert_eq!(names(&s.prefix_chapters), vec!["Intro", "---"]);
    assert_eq!(names(&s.numbered_chapters), vec!["A"]);
}

#[test]
fn section_numbers_render_with_trailing_dots() {
    assert_eq!(SectionNumber(vec![1]).render(), "1.");
    assert_eq!(SectionNumber(vec![1, 1]).render(), "1.1.");
    assert_eq!(SectionNumber(vec![2, 10, 3]).render(), "2.10.3.");
    assert_eq!(SectionNumber(vec![]).render(), "");
}
