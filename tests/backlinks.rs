use mdbook_backlinks::book::{Book, BookItem, Chapter};
use mdbook_backlinks::index::build_index;
use mdbook_backlinks::markdown::{extract_links, MarkdownBuilder, MdEvent, MdTag};
use mdbook_backlinks::path::{normalize_path, PathError};
use mdbook_backlinks::splice::process_book;
use mdbook_backlinks::Backlinks;

fn chapter(name: &str, path: Option<&str>, content: &str, number: Option<Vec<u32>>) -> BookItem {
    BookItem::Chapter(Chapter {
        name: name.to_string(),
        content: content.to_string(),
        number,
        source_path: path.map(|p| p.to_string()),
        parent_names: Vec::new(),
    })
}

fn content_of(item: &BookItem) -> String {
    match item {
        BookItem::Chapter(ch) => ch.content.clone(),
        _ => panic!("not a chapter"),
    }
}

const EXPECTED: &str = "\n\n---\n\n > \n > #### Backlinks\n > \n > * [index](../index.md)\n > * [ch1](../a/ch1.md)\n > * [ch3](ch3.md)\n > * [ch2](ch2.md)";

fn five_chapters(index_number: Option<Vec<u32>>) -> Book {
    Book {
        items: vec![
            chapter("index", Some("index.md"), "[link](b/last_chapter.md)", index_number),
            chapter("ch1", Some("a/ch1.md"), "[link](../b/last_chapter.md)", Some(vec![1, 1])),
            chapter("ch2", Some("b/ch2.md"), "[link](last_chapter.md)", Some(vec![2, 2])),
            chapter("ch3", Some("b/ch3.md"), "[link](last_chapter.md)", Some(vec![2, 1])),
            chapter("last_chapter", Some("b/last_chapter.md"), "", Some(vec![2, 3])),
        ],
    }
}

#[test]
fn test() {
    let book = process_book(five_chapters(Some(vec![0]))).unwrap();
    assert_eq!(content_of(book.items.last().unwrap()), EXPECTED);
}

#[test]
fn unnumbered_index_comes_first() {
    let book = process_book(five_chapters(None)).unwrap();
    assert_eq!(content_of(&book.items[4]), EXPECTED);
    for i in 0..4 {
        assert_eq!(content_of(&book.items[i]), content_of(&five_chapters(None).items[i]));
    }
}

#[test]
fn run_matches_process_book() {
    let pre = Backlinks;
    assert_eq!(pre.name(), "backlinks");
    let book = pre.run(five_chapters(None)).unwrap();
    assert_eq!(content_of(&book.items[4]), EXPECTED);
}

#[test]
fn normalize_resolves_dots() {
    let n = normalize_path("a/./b/../c.md").unwrap();
    assert!(!n.absolute);
    assert_eq!(n.segments, vec!["a".to_string(), "c.md".to_string()]);
    assert_eq!(n.to_path_string(), "a/c.md");
    let abs = normalize_path("/x//y/").unwrap();
    assert!(abs.absolute);
    assert_eq!(abs.to_path_string(), "/x/y");
}

#[test]
fn normalize_is_idempotent() {
    for p in ["a/./b/../c.md", "../", "x/y/../../z", "/r/./s", ""] {
        if let Ok(n) = normalize_path(p) {
            let again = normalize_path(&n.to_path_string()).unwrap();
            assert_eq!(again.segments, n.segments);
            assert_eq!(again.absolute, n.absolute);
        }
    }
}

#[test]
fn normalize_escape_is_an_error() {
    assert!(matches!(normalize_path("a/../.."), Err(PathError::EscapesRoot)));
    assert!(matches!(normalize_path(".."), Err(PathError::EscapesRoot)));
}

#[test]
fn links_in_code_are_ignored() {
    let links = extract_links("[a](x.md) `[b](y.md)`\n\n```\n[c](z.md)\n```\n\n[d](w.md#top)");
    assert_eq!(links, vec!["x.md".to_string(), "w.md#top".to_string()]);
}

#[test]
fn duplicate_links_give_one_backlink() {
    let book = Book {
        items: vec![
            chapter("A", Some("a.md"), "[one](t.md) and [two](./t.md)", Some(vec![1])),
            chapter("T", Some("t.md"), "body", Some(vec![2])),
        ],
    };
    let idx = build_index(&book).unwrap();
    let a = idx.targets.iter().position(|t| t.to_path_string() == "t.md").unwrap();
    assert_eq!(idx.records[a].len(), 1);
    assert_eq!(idx.records[a][0].name, "A");
    let out = process_book(book).unwrap();
    assert_eq!(content_of(&out.items[1]).matches("[A](a.md)").count(), 1);
}

#[test]
fn rebuilding_gives_the_same_order() {
    let first = build_index(&five_chapters(None)).unwrap();
    let second = build_index(&five_chapters(None)).unwrap();
    assert_eq!(first.targets.len(), second.targets.len());
    for a in 0..first.targets.len() {
        let names1: Vec<String> = first.records[a].iter().map(|r| r.name.clone()).collect();
        let names2: Vec<String> = second.records[a].iter().map(|r| r.name.clone()).collect();
        assert_eq!(names1, names2);
    }
}

#[test]
fn only_chapters_are_targets() {
    let book = Book {
        items: vec![
            chapter("A", Some("a.md"), "[x](missing.md) [y](https://example.com)", None),
            BookItem::Separator,
            BookItem::PartTitle("Part".to_string()),
            chapter("B", Some("b/b.md"), "", None),
        ],
    };
    let idx = build_index(&book).unwrap();
    let mut keys: Vec<String> = idx.targets.iter().map(|t| t.to_path_string()).collect();
    keys.sort();
    assert_eq!(keys, vec!["a.md".to_string(), "b/b.md".to_string()]);
    assert!(idx.records.iter().all(|l| l.is_empty()));
}

#[test]
fn chapter_without_path_takes_no_part() {
    let book = Book {
        items: vec![
            chapter("draft", None, "[t](t.md)", None),
            chapter("T", Some("t.md"), "text", None),
        ],
    };
    let out = process_book(book).unwrap();
    assert_eq!(content_of(&out.items[0]), "[t](t.md)");
    assert_eq!(content_of(&out.items[1]), "text");
}

#[test]
fn outside_links_are_dropped_without_error() {
    let book = Book {
        items: vec![
            chapter("A", Some("a/a.md"), "[o](../outside/doc.md) [w](https://example.com)", None),
            chapter("B", Some("b.md"), "plain", None),
        ],
    };
    let out = process_book(book).unwrap();
    assert_eq!(content_of(&out.items[0]), "[o](../outside/doc.md) [w](https://example.com)");
    assert_eq!(content_of(&out.items[1]), "plain");
}

#[test]
fn no_incoming_links_leaves_content_unchanged() {
    let text = "# Title\n\nSome *text*   with  spacing.\n";
    let book = Book { items: vec![chapter("A", Some("a.md"), text, Some(vec![1]))] };
    let out = process_book(book).unwrap();
    assert_eq!(content_of(&out.items[0]), text);
}

#[test]
fn escaping_link_is_an_error() {
    let book = Book { items: vec![chapter("A", Some("a.md"), "[x](../../up.md)", None)] };
    assert!(matches!(process_book(book), Err(PathError::EscapesRoot)));
}

#[test]
fn escaping_source_path_is_an_error() {
    let book = Book { items: vec![chapter("A", Some("../a.md"), "", None)] };
    assert!(matches!(build_index(&book), Err(PathError::EscapesRoot)));
}

#[test]
fn relative_path_to_descendant_and_ancestor() {
    let book = Book {
        items: vec![
            chapter("Top", Some("top.md"), "[d](x/y/deep.md)", None),
            chapter("Deep", Some("x/y/deep.md"), "[t](../../top.md)", None),
        ],
    };
    let out = process_book(book).unwrap();
    assert!(content_of(&out.items[0]).ends_with(" > * [Deep](x/y/deep.md)"));
    assert!(content_of(&out.items[1]).ends_with(" > * [Top](../../top.md)"));
}

#[test]
fn builder_renders_nested_tags() {
    let mut label = MarkdownBuilder::new();
    label.text("Name".to_string());
    let mut item = MarkdownBuilder::new();
    item.simple_link("x/y.md".to_string(), label);
    let mut list = MarkdownBuilder::new();
    list.tag(MdTag::Item, item);
    let mut doc = MarkdownBuilder::new();
    let mut title = MarkdownBuilder::new();
    title.text("Title".to_string());
    doc.simple_heading(2, title);
    doc.event(MdEvent::Rule);
    doc.tag(MdTag::List, list);
    assert_eq!(doc.events.len(), 11);
    let mut s = "start".to_string();
    doc.write_to_string(&mut s);
    assert!(s.starts_with("start"));
    assert!(s.contains("## Title"));
    assert!(s.contains("* [Name](x/y.md)"));
}
