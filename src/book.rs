use vstd::prelude::*;

use crate::markdown::link_dests;
use crate::path::{normalize, resolve_link, NormPath};

verus! {

/// A chapter of a book.
pub struct Chapter {
    /// The title shown for the chapter.
    pub name: String,
    /// The chapter's markdown text.
    pub content: String,
    /// The section number, such as `[2, 1]`; absent for unnumbered chapters.
    pub number: Option<Vec<u32>>,
    /// Where the chapter's file lies, relative to the book's source directory;
    /// absent for a draft chapter.
    pub source_path: Option<String>,
    /// The names of the chapters that this one is nested in, outermost first.
    pub parent_names: Vec<String>,
}

/// One entry of a book, in document order.
pub enum BookItem {
    Chapter(Chapter),
    Separator,
    PartTitle(String),
}

/// A book: its entries in document order, nested chapters right after the
/// chapter that holds them.
pub struct Book {
    pub items: Vec<BookItem>,
}

/// The mathematical value of a backlink: the linking chapter's number, name
/// and normalized path.
pub struct RecordV {
    pub number: Option<Seq<u32>>,
    pub name: Seq<char>,
    pub path: NormPath,
}

pub open spec fn number_view(n: Option<Vec<u32>>) -> Option<Seq<u32>> {
    match n {
        Some(v) => Some(v@),
        None => None,
    }
}

/// The source path of `it`, if it is a chapter that has one.
pub open spec fn item_source(it: BookItem) -> Option<Seq<char>> {
    match it {
        BookItem::Chapter(ch) => match ch.source_path {
            Some(p) => Some(p@),
            None => None,
        },
        _ => None,
    }
}

/// The normalized source path of `it`: the identity of a chapter.
pub open spec fn item_key(it: BookItem) -> Option<NormPath> {
    match item_source(it) {
        Some(p) => normalize(p),
        None => None,
    }
}

/// The link destinations in the content of `it`; none for what is no chapter.
pub open spec fn item_links(it: BookItem) -> Seq<Seq<char>> {
    match it {
        BookItem::Chapter(ch) => link_dests(ch.content@),
        _ => Seq::<Seq<char>>::empty(),
    }
}

/// The backlink that `it` leaves in the chapters it links to.
pub open spec fn item_record(it: BookItem) -> RecordV {
    match it {
        BookItem::Chapter(ch) => RecordV {
            number: number_view(ch.number),
            name: ch.name@,
            path: item_key(it)->0,
        },
        _ => RecordV { number: None, name: Seq::<char>::empty(), path: item_key(it)->0 },
    }
}

/// One of the first `m` links of `it` leads to `k`.
pub open spec fn links_to_upto(it: BookItem, k: NormPath, m: int) -> bool {
    item_key(it) matches Some(p) && exists|j: int|
        0 <= j < m && j < item_links(it).len() && resolve_link(p, #[trigger] item_links(it)[j]) == Some(k)
}

/// Some link of `it` leads to `k`.
pub open spec fn links_to(it: BookItem, k: NormPath) -> bool {
    links_to_upto(it, k, item_links(it).len() as int)
}

/// Every source path stays inside the book.
pub open spec fn paths_ok(items: Seq<BookItem>) -> bool {
    forall|i: int| 0 <= i < items.len() && (#[trigger] item_source(items[i])) is Some ==> item_key(items[i]) is Some
}

/// Every link of a chapter with a source path stays inside the book.
pub open spec fn links_ok(items: Seq<BookItem>) -> bool {
    forall|i: int, j: int|
        0 <= i < items.len() && item_key(items[i]) is Some && 0 <= j < item_links(items[i]).len()
            ==> resolve_link(item_key(items[i])->0, #[trigger] item_links(items[i])[j]) is Some
}

/// A book whose paths and links can all be normalized.
pub open spec fn book_ok(items: Seq<BookItem>) -> bool {
    paths_ok(items) && links_ok(items)
}

/// `r` is the backlink of one of the first `n` items that links to `k`.
pub open spec fn backlink_upto(items: Seq<BookItem>, k: NormPath, r: RecordV, n: int) -> bool {
    exists|i: int| 0 <= i < n && i < items.len() && links_to(#[trigger] items[i], k) && item_record(items[i]) == r
}

/// `r` is the backlink of a chapter of the book that links to `k`.
pub open spec fn is_backlink(items: Seq<BookItem>, k: NormPath, r: RecordV) -> bool {
    backlink_upto(items, k, r, items.len() as int)
}

/// `k` is the normalized path of a chapter of the book.
pub open spec fn is_chapter_key(items: Seq<BookItem>, k: NormPath) -> bool {
    exists|i: int| 0 <= i < items.len() && #[trigger] item_key(items[i]) == Some(k)
}

} // verus!
