use vstd::prelude::*;

pub mod book;
pub mod index;
pub mod markdown;
pub mod order;
pub mod path;
pub mod splice;

use crate::book::{book_ok, Book};
use crate::index::BacklinkIndex;
use crate::path::PathError;
use crate::splice::{process_book, spliced};

verus! {

/// The preprocessor that adds backlinks to the chapters of a book.
pub struct Backlinks;

impl Backlinks {
    /// The name under which the preprocessor is known.
    pub fn name(&self) -> (r: &'static str)
        ensures
            r@ == seq!['b', 'a', 'c', 'k', 'l', 'i', 'n', 'k', 's'],
    {
        proof {
            reveal_strlit("backlinks");
        }
        "backlinks"
    }

    /// Adds backlinks to the chapters of `book`.
    pub fn run(&self, book: Book) -> (r: Result<Book, PathError>)
        ensures
            r is Ok <==> book_ok(book.items@),
            r matches Err(e) ==> e == PathError::EscapesRoot,
            r matches Ok(out) ==> out.items.len() == book.items.len() && exists|idx: BacklinkIndex|
                idx.describes(book.items@) && forall|i: int|
                    0 <= i < book.items.len() ==> spliced(#[trigger] book.items@[i], out.items@[i], idx),
    {
        process_book(book)
    }
}

} // verus!
