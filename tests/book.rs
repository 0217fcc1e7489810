use mdbook_outline::book::{
    create_missing, chapter_files, load_book_from_disk, load_chapter, load_summary_item, Book,
    BookItem, Chapter, ContentStore, LoadError, VirtualChapter,
};
use mdbook_outline::summary::{parse_summary, Link, SectionNumber, Summary, SummaryItem};

const DUMMY_SRC: &str = "
# Dummy Chapter

this is some dummy text.

And here is some more text.
";

const ROOT: &str = "/tmp/book";

/// A store holding `chapter_1.md` under the book's root, and a link to it.
fn dummy_link() -> (Link, ContentStore) {
    let mut store = ContentStore::new();
    store.insert(format!("{}/chapter_1.md", ROOT), DUMMY_SRC.to_string());
    let link = Link::new("Chapter 1", &format!("{}/chapter_1.md", ROOT));
    (link, store)
}

fn second_link() -> Link {
    let mut second = Link::new("Nested Chapter 1", &format!("{}/second.md", ROOT));
    second.number = Some(SectionNumber(vec![1, 2]));
    second
}

/// A link with nested items, and a store holding their files.
fn nested_links() -> (Link, ContentStore) {
    let (mut root, mut store) = dummy_link();
    store.insert(format!("{}/second.md", ROOT), "Hello World!".to_string());
    root.nested_items.push(SummaryItem::Link(second_link()));
    root.nested_items.push(SummaryItem::Separator);
    root.nested_items.push(SummaryItem::Link(second_link()));
    (root, store)
}

fn empty_summary() -> Summary {
    Summary {
        prefix_chapters: Vec::new(),
        numbered_chapters: Vec::new(),
        suffix_chapters: Vec::new(),
    }
}

fn chapter(name: &str, content: &str, path: &str, sub_items: Vec<BookItem>) -> Chapter {
    Chapter {
        name: name.to_string(),
        content: content.to_string(),
        number: None,
        sub_items,
        path: path.to_string(),
        parent_names: Vec::new(),
    }
}

fn nested_book() -> Book {
    Book {
        sections: vec![
            BookItem::Chapter(chapter(
                "Chapter 1",
                DUMMY_SRC,
                "Chapter_1/index.md",
                vec![
                    BookItem::Chapter(Chapter::new(
                        "Hello World",
                        String::new(),
                        "Chapter_1/hello.md",
                        Vec::new(),
                    )),
                    BookItem::Separator,
                    BookItem::Chapter(Chapter::new(
                        "Goodbye World",
                        String::new(),
                        "Chapter_1/goodbye.md",
                        Vec::new(),
                    )),
                ],
            )),
            BookItem::Separator,
        ],
    }
}

fn chapter_names(items: &[&BookItem]) -> Vec<String> {
    items
        .iter()
        .filter_map(|i| match i {
            BookItem::Chapter(ch) => Some(ch.name.clone()),
            _ => None,
        })
        .collect()
}

#[test]
fn load_a_single_chapter_from_disk() {
    let (link, store) = dummy_link();
    let should_be = Chapter::new("Chapter 1", DUMMY_SRC.to_string(), "chapter_1.md", Vec::new());

    let got = load_chapter(&link, ROOT, &store, Vec::new()).unwrap();
    assert_eq!(got, should_be);
}

#[test]
fn cant_load_a_nonexistent_chapter() {
    let link = Link::new("Chapter 1", "/foo/bar/baz.md");
    let store = ContentStore::new();

    let got = load_chapter(&link, "", &store, Vec::new());
    assert!(got.is_err());
}

#[test]
fn load_recursive_link_with_separators() {
    let (root, store) = nested_links();

    let nested = || Chapter {
        name: String::from("Nested Chapter 1"),
        content: String::from("Hello World!"),
        number: Some(SectionNumber(vec![1, 2])),
        path: String::from("second.md"),
        parent_names: vec![String::from("Chapter 1")],
        sub_items: Vec::new(),
    };
    let should_be = BookItem::Chapter(Chapter {
        name: String::from("Chapter 1"),
        content: String::from(DUMMY_SRC),
        number: None,
        path: String::from("chapter_1.md"),
        parent_names: Vec::new(),
        sub_items: vec![
            BookItem::Chapter(nested()),
            BookItem::Separator,
            BookItem::Chapter(nested()),
        ],
    });

    let got = load_summary_item(&SummaryItem::Link(root), ROOT, &store, Vec::new()).unwrap();
    assert_eq!(got, should_be);
}

#[test]
fn load_a_book_with_a_single_chapter() {
    let (link, store) = dummy_link();
    let mut summary = empty_summary();
    summary.numbered_chapters.push(SummaryItem::Link(link));
    let should_be = Book {
        sections: vec![BookItem::Chapter(chapter(
            "Chapter 1",
            DUMMY_SRC,
            "chapter_1.md",
            Vec::new(),
        ))],
    };

    let got = load_book_from_disk(&summary, ROOT, &store).unwrap();

    assert_eq!(got, should_be);
}

#[test]
fn book_iter_iterates_over_sequential_items() {
    let book = Book {
        sections: vec![
            BookItem::Chapter(chapter("Chapter 1", DUMMY_SRC, "", Vec::new())),
            BookItem::Separator,
        ],
    };

    let should_be: Vec<_> = book.sections.iter().collect();

    let got: Vec<_> = book.iter();

    assert_eq!(got, should_be);
}

#[test]
fn iterate_over_nested_book_items() {
    let book = nested_book();

    let got: Vec<_> = book.iter();

    assert_eq!(got.len(), 5);

    let should_be: Vec<_> = vec![
        String::from("Chapter 1"),
        String::from("Hello World"),
        String::from("Goodbye World"),
    ];

    assert_eq!(chapter_names(&got), should_be);
}

#[test]
fn for_each_mut_visits_all_items() {
    let mut book = nested_book();

    let num_items = book.iter().len();
    let mut visited = 0;

    book.for_each_mut(|item| {
        visited += 1;
        item
    });

    assert_eq!(visited, num_items);
}

#[test]
fn for_each_mut_rewrites_content_and_keeps_shape() {
    let mut book = nested_book();
    book.for_each_mut(|item| match item {
        BookItem::Chapter(mut ch) => {
            ch.content = format!("<{}>", ch.name);
            BookItem::Chapter(ch)
        },
        other => other,
    });
    let got = book.iter();
    assert_eq!(got.len(), 5);
    assert_eq!(chapter_names(&got), vec!["Chapter 1", "Hello World", "Goodbye World"]);
    match got[1] {
        BookItem::Chapter(ch) => assert_eq!(ch.content, "<Hello World>"),
        _ => panic!("expected a chapter"),
    }
}

#[test]
fn cant_load_chapters_with_an_empty_path() {
    let (_, store) = dummy_link();
    let mut summary = empty_summary();
    summary.numbered_chapters.push(SummaryItem::Link(Link::new("Empty", "")));

    let got = load_book_from_disk(&summary, ROOT, &store);
    assert!(got.is_err());
}

#[test]
fn cant_load_chapters_when_the_link_is_a_directory() {
    // The store holds files only: `nested` is a directory below the root.
    let (_, mut store) = dummy_link();
    store.insert(format!("{}/nested/inner.md", ROOT), "inside".to_string());
    let mut summary = empty_summary();
    summary
        .numbered_chapters
        .push(SummaryItem::Link(Link::new("nested", &format!("{}/nested", ROOT))));

    let got = load_book_from_disk(&summary, ROOT, &store);
    assert_eq!(
        got,
        Err(LoadError::ContentNotFound { location: format!("{}/nested", ROOT) })
    );
}

fn abc_store() -> ContentStore {
    let mut store = ContentStore::new();
    store.insert("src/a.md".to_string(), "# A".to_string());
    store.insert("src/b.md".to_string(), "# B".to_string());
    store.insert("src/c.md".to_string(), "# C".to_string());
    store
}

#[test]
fn reading_order_and_numbers_of_a_resolved_book() {
    let summary = parse_summary("- [A](a.md)\n    - [B](b.md)\n- [C](c.md)\n").unwrap();
    let book = load_book_from_disk(&summary, "src", &abc_store()).unwrap();
    let items = book.iter();
    assert_eq!(chapter_names(&items), vec!["A", "B", "C"]);
    let numbers: Vec<Vec<usize>> = items
        .iter()
        .filter_map(|i| match i {
            BookItem::Chapter(ch) => ch.number.as_ref().map(|n| n.0.clone()),
            _ => None,
        })
        .collect();
    assert_eq!(numbers, vec![vec![1], vec![1, 1], vec![2]]);
    let headings: Vec<String> = items
        .iter()
        .filter_map(|i| match i {
            BookItem::Chapter(ch) => Some(ch.display()),
            _ => None,
        })
        .collect();
    assert_eq!(headings, vec!["1. A", "1.1. B", "2. C"]);
    match items[1] {
        BookItem::Chapter(ch) => {
            assert_eq!(ch.parent_names, vec!["A".to_string()]);
            assert_eq!(ch.path, "b.md");
            assert_eq!(ch.content, "# B");
        },
        _ => panic!("expected a chapter"),
    }
}

#[test]
fn top_level_items_follow_the_outline() {
    let text = "[Intro](a.md)\n---\n- [One](b.md)\n[Outro](c.md)\n";
    let summary = parse_summary(text).unwrap();
    let book = load_book_from_disk(&summary, "src", &abc_store()).unwrap();
    assert_eq!(book.sections.len(), 4);
    let kinds: Vec<&str> = book
        .sections
        .iter()
        .map(|i| match i {
            BookItem::Chapter(ch) => ch.name.as_str(),
            BookItem::Separator => "---",
            BookItem::VirtualChapter(_) => "virtual",
        })
        .collect();
    assert_eq!(kinds, vec!["Intro", "---", "One", "Outro"]);
}

#[test]
fn absolute_link_outside_the_root_is_refused() {
    let mut store = ContentStore::new();
    store.insert("/elsewhere/x.md".to_string(), "x".to_string());
    let summary = parse_summary("- [X](/elsewhere/x.md)\n").unwrap();
    let got = load_book_from_disk(&summary, "/tmp/book", &store);
    assert_eq!(got, Err(LoadError::PathEscape { location: "/elsewhere/x.md".to_string() }));
}

#[test]
fn missing_chapter_is_reported_with_its_location() {
    let summary = parse_summary("- [A](a.md)\n- [Z](z.md)\n").unwrap();
    let got = load_book_from_disk(&summary, "src", &abc_store());
    assert_eq!(got, Err(LoadError::ContentNotFound { location: "z.md".to_string() }));
}

#[test]
fn create_missing_writes_stubs_once() {
    let summary = parse_summary("- [A](a.md)\n    - [New](sub/new.md)\n- [Z](z.md)\n").unwrap();
    let mut store = abc_store();
    let created = create_missing(&summary, "src", &mut store);
    assert_eq!(
        created,
        vec![
            ("src/sub/new.md".to_string(), "# New\n".to_string()),
            ("src/z.md".to_string(), "# Z\n".to_string()),
        ]
    );
    assert_eq!(store.read(&"src/a.md".to_string()), Some("# A".to_string()));
    let again = create_missing(&summary, "src", &mut store);
    assert!(again.is_empty());
    assert_eq!(store.read(&"src/z.md".to_string()), Some("# Z\n".to_string()));
    let book = load_book_from_disk(&summary, "src", &store).unwrap();
    assert_eq!(book.iter().len(), 3);
}

#[test]
fn chapter_files_lists_every_link_in_reading_order() {
    let summary =
        parse_summary("[Intro](intro.md)\n- [A](a.md)\n    - [B](/abs/b.md)\n").unwrap();
    assert_eq!(
        chapter_files(&summary, "src/"),
        vec!["src/intro.md".to_string(), "src/a.md".to_string(), "/abs/b.md".to_string()]
    );
}

#[test]
fn book_builders() {
    let mut book = Book::new();
    assert!(book.sections.is_empty());
    book.push_item(BookItem::from(Chapter::new("A", "x".to_string(), "a.md", Vec::new())));
    book.push_item(BookItem::Separator);
    assert_eq!(book.sections.len(), 2);
    assert_eq!(book.iter().len(), 2);
}

#[test]
fn walks_go_into_virtual_chapters() {
    let mut part = VirtualChapter::new("Part", String::new());
    part.sub_items.push(BookItem::Chapter(Chapter::new("Inner", String::new(), "inner.md", Vec::new())));
    let mut book = Book::new();
    book.push_item(BookItem::VirtualChapter(part));
    assert_eq!(book.iter().len(), 2);
    let mut visited = 0;
    book.for_each_mut(|item| {
        visited += 1;
        item
    });
    assert_eq!(visited, 2);
}
