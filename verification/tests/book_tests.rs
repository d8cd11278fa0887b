use mdbook_obgraph::book::{chapter_texts, payload_book, with_chapter_texts, BookEntry, BookValue};

fn text(s: &str) -> BookValue {
    BookValue::Str(s.to_string())
}

fn obj(entries: Vec<(&str, BookValue)>) -> BookValue {
    BookValue::Object(
        entries
            .into_iter()
            .map(|(k, v)| BookEntry { key: k.to_string(), value: v })
            .collect(),
    )
}

fn chapter(content: BookValue, subs: Vec<BookValue>) -> BookValue {
    obj(vec![(
        "Chapter",
        obj(vec![
            ("name", text("Some chapter")),
            ("content", content),
            ("number", BookValue::Array(vec![BookValue::Number("1".to_string())])),
            ("sub_items", BookValue::Array(subs)),
            ("path", text("intro.md")),
        ]),
    )])
}

fn sample_book() -> BookValue {
    obj(vec![
        (
            "sections",
            BookValue::Array(vec![
                chapter(text("# Intro"), vec![chapter(text("nested"), vec![])]),
                text("Separator"),
                obj(vec![("PartTitle", text("Part"))]),
                chapter(text("last"), vec![]),
            ]),
        ),
        ("__non_exhaustive", BookValue::Null),
    ])
}

#[test]
fn chapters_are_read_in_walk_order() {
    assert_eq!(chapter_texts(&sample_book()), vec!["# Intro", "nested", "last"]);
}

#[test]
fn content_that_is_not_text_is_skipped() {
    let book = BookValue::Array(vec![
        chapter(BookValue::Number("5".to_string()), vec![chapter(text("inner"), vec![])]),
        chapter(BookValue::Bool(true), vec![]),
    ]);
    assert_eq!(chapter_texts(&book), vec!["inner"]);
}

#[test]
fn other_entries_of_a_chapter_item_are_not_walked() {
    let book = obj(vec![
        ("Chapter", obj(vec![("content", text("seen"))])),
        ("extra", chapter(text("hidden"), vec![])),
    ]);
    assert_eq!(chapter_texts(&book), vec!["seen"]);
}

#[test]
fn empty_book_has_no_chapters() {
    assert!(chapter_texts(&BookValue::Null).is_empty());
    assert!(chapter_texts(&obj(vec![])).is_empty());
}

#[test]
fn written_texts_are_read_back() {
    let texts = vec!["A".to_string(), "B".to_string(), "C".to_string()];
    let book = with_chapter_texts(sample_book(), &texts);
    assert_eq!(chapter_texts(&book), texts);
}

#[test]
fn writing_replaces_only_the_contents() {
    let texts = vec!["A".to_string(), "B".to_string(), "C".to_string()];
    let book = with_chapter_texts(sample_book(), &texts);
    let expected = obj(vec![
        (
            "sections",
            BookValue::Array(vec![
                chapter(text("A"), vec![chapter(text("B"), vec![])]),
                text("Separator"),
                obj(vec![("PartTitle", text("Part"))]),
                chapter(text("C"), vec![]),
            ]),
        ),
        ("__non_exhaustive", BookValue::Null),
    ]);
    assert_eq!(format!("{book:?}"), format!("{expected:?}"));
}

#[test]
fn writing_back_what_was_read_changes_nothing() {
    let texts = chapter_texts(&sample_book());
    let book = with_chapter_texts(sample_book(), &texts);
    assert_eq!(format!("{book:?}"), format!("{:?}", sample_book()));
}

#[test]
fn payload_book_is_the_second_element() {
    let payload = BookValue::Array(vec![obj(vec![("root", text("."))]), sample_book()]);
    let book = payload_book(payload).unwrap();
    assert_eq!(format!("{book:?}"), format!("{:?}", sample_book()));
}

#[test]
fn payload_without_a_book_is_refused() {
    assert!(payload_book(BookValue::Array(vec![obj(vec![])])).is_none());
    assert!(payload_book(obj(vec![("1", sample_book())])).is_none());
    assert!(payload_book(BookValue::Null).is_none());
}
