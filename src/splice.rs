use vstd::prelude::*;

use crate::book::{book_ok, is_backlink, is_chapter_key, item_key, item_record, item_source, links_to, Book, BookItem, RecordV};
use crate::index::{build_index, lemma_sorted_unique, records_view, sorted, BacklinkIndex, BacklinkRecord};
use crate::markdown::{cmark_text, events_ok, MarkdownBuilder, MdEvent, MdEventV, MdTag, MdTagV};
use crate::path::{lemma_normalize_wf, normalize_path, relative_path, NormPath, NormalizedPath, PathError};

verus! {

broadcast use vstd::string::group_string_axioms;

/// The title of the backlinks block.
pub open spec fn heading_text() -> Seq<char> {
    seq!['B', 'a', 'c', 'k', 'l', 'i', 'n', 'k', 's']
}

/// Two line breaks, so that the rule after them is not read as the
/// underline of a heading.
pub open spec fn padding() -> Seq<char> {
    seq!['\n', '\n']
}

/// One list item per backlink: a link, labelled with the linking chapter's
/// name, to its path as seen from the directory of `target`.
pub open spec fn item_events(target: NormPath, recs: Seq<RecordV>) -> Seq<MdEventV>
    decreases recs.len(),
{
    if recs.len() == 0 {
        Seq::<MdEventV>::empty()
    } else {
        let prev = item_events(target, recs.drop_last());
        let r = recs.last();
        match relative_path(r.path, target.parent()) {
            None => prev,
            Some(d) => prev + seq![
                MdEventV::Start(MdTagV::Item),
                MdEventV::Start(MdTagV::Link(d)),
                MdEventV::Text(r.name),
                MdEventV::End(MdTagV::Link(d)),
                MdEventV::End(MdTagV::Item),
            ],
        }
    }
}

/// The backlinks block for `target`: a rule, then a block quote that holds a
/// level-4 heading and the list of backlinks.
pub open spec fn fragment_events(target: NormPath, recs: Seq<RecordV>) -> Seq<MdEventV> {
    seq![
        MdEventV::Rule,
        MdEventV::Start(MdTagV::BlockQuote),
        MdEventV::Start(MdTagV::Heading(4)),
        MdEventV::Text(heading_text()),
        MdEventV::End(MdTagV::Heading(4)),
        MdEventV::Start(MdTagV::List),
    ] + item_events(target, recs) + seq![MdEventV::End(MdTagV::List), MdEventV::End(MdTagV::BlockQuote)]
}

/// The backlinks to `k` that `idx` holds; none if it has no entry for `k`.
pub open spec fn entry_of(idx: BacklinkIndex, k: NormPath) -> Seq<RecordV> {
    let t = idx.spec_targets();
    if t.contains(k) {
        idx.spec_lists()[choose|a: int| 0 <= a < t.len() && t[a] == k]
    } else {
        Seq::<RecordV>::empty()
    }
}

/// The content of a chapter at `k` once its backlinks are appended.
pub open spec fn content_after(content: Seq<char>, k: Option<NormPath>, idx: BacklinkIndex) -> Seq<char> {
    match k {
        Some(p) => if entry_of(idx, p).len() > 0 {
            content + padding() + cmark_text(fragment_events(p, entry_of(idx, p)))
        } else {
            content
        },
        None => content,
    }
}

/// `after` is `before` with its backlinks from `idx` appended: a chapter
/// keeps its name, number, path and nesting, and only its content grows;
/// every other item stays as it is.
pub open spec fn spliced(before: BookItem, after: BookItem, idx: BacklinkIndex) -> bool {
    match before {
        BookItem::Chapter(c) => after matches BookItem::Chapter(d) && d.name == c.name && d.number == c.number
            && d.source_path == c.source_path && d.parent_names == c.parent_names && d.content@ == content_after(
            c.content@,
            item_key(before),
            idx,
        ),
        _ => after == before,
    }
}

proof fn lemma_events_ok_concat(a: Seq<MdEventV>, b: Seq<MdEventV>)
    requires
        events_ok(a),
        events_ok(b),
    ensures
        events_ok(a + b),
{
    assert forall|i: int| 0 <= i < (a + b).len() implies match #[trigger] (a + b)[i] {
        MdEventV::Start(t) => crate::markdown::tag_ok(t),
        MdEventV::End(t) => crate::markdown::tag_ok(t),
        _ => true,
    } by {
        if i < a.len() {
            assert((a + b)[i] == a[i]);
        } else {
            assert((a + b)[i] == b[i - a.len()]);
        }
    }
}

proof fn lemma_item_events_ok(target: NormPath, recs: Seq<RecordV>)
    ensures
        events_ok(item_events(target, recs)),
    decreases recs.len(),
{
    if recs.len() > 0 {
        lemma_item_events_ok(target, recs.drop_last());
        let r = recs.last();
        match relative_path(r.path, target.parent()) {
            None => {},
            Some(d) => {
                let s = seq![
                    MdEventV::Start(MdTagV::Item),
                    MdEventV::Start(MdTagV::Link(d)),
                    MdEventV::Text(r.name),
                    MdEventV::End(MdTagV::Link(d)),
                    MdEventV::End(MdTagV::Item),
                ];
                assert(events_ok(s));
                lemma_events_ok_concat(item_events(target, recs.drop_last()), s);
            },
        }
    }
}

/// Renders the backlinks block for the chapter at `target`.
pub fn render_backlinks(target: &NormalizedPath, recs: &Vec<BacklinkRecord>) -> (r: String)
    requires
        target@.wf(),
        forall|i: int| 0 <= i < recs.len() ==> (#[trigger] recs@[i]).path@.wf(),
    ensures
        r@ == cmark_text(fragment_events(target@, records_view(recs@))),
{
    let ghost rv = records_view(recs@);
    let mut items = MarkdownBuilder::new();
    let mut i: usize = 0;
    while i < recs.len()
        invariant
            0 <= i <= recs.len(),
            rv == records_view(recs@),
            target@.wf(),
            forall|i: int| 0 <= i < recs.len() ==> (#[trigger] recs@[i]).path@.wf(),
            items.spec_events() == item_events(target@, rv.take(i as int)),
        decreases recs.len() - i,
    {
        proof {
            assert(rv.take(i + 1).drop_last() =~= rv.take(i as int));
            assert(rv.take(i + 1).last() == recs@[i as int]@);
        }
        let rec = &recs[i];
        match target.relative_from_parent(&rec.path) {
            Some(d) => {
                let mut label = MarkdownBuilder::new();
                label.text(rec.name.clone());
                let mut link = MarkdownBuilder::new();
                link.simple_link(d, label);
                items.tag(MdTag::Item, link);
            },
            None => {},
        }
        i = i + 1;
    }
    proof {
        assert(rv.take(recs.len() as int) =~= rv);
    }
    let mut heading = MarkdownBuilder::new();
    let title = "Backlinks".to_string();
    proof {
        reveal_strlit("Backlinks");
    }
    heading.text(title);
    proof {
        assert(title@ =~= heading_text());
        assert(heading.spec_events() =~= seq![MdEventV::Text(heading_text())]);
    }
    let mut quote = MarkdownBuilder::new();
    quote.simple_heading(4, heading);
    quote.tag(MdTag::List, items);
    let mut block = MarkdownBuilder::new();
    block.event(MdEvent::Rule);
    proof {
        assert(quote.spec_events() =~= seq![
            MdEventV::Start(MdTagV::Heading(4)),
            MdEventV::Text(heading_text()),
            MdEventV::End(MdTagV::Heading(4)),
            MdEventV::Start(MdTagV::List),
        ] + item_events(target@, rv) + seq![MdEventV::End(MdTagV::List)]);
    }
    block.tag(MdTag::BlockQuote, quote);
    proof {
        assert(block.spec_events() =~= fragment_events(target@, rv));
        let head = seq![
            MdEventV::Rule,
            MdEventV::Start(MdTagV::BlockQuote),
            MdEventV::Start(MdTagV::Heading(4)),
            MdEventV::Text(heading_text()),
            MdEventV::End(MdTagV::Heading(4)),
            MdEventV::Start(MdTagV::List),
        ];
        let tail = seq![MdEventV::End(MdTagV::List), MdEventV::End(MdTagV::BlockQuote)];
        assert(events_ok(head));
        assert(events_ok(tail));
        lemma_item_events_ok(target@, rv);
        lemma_events_ok_concat(head, item_events(target@, rv));
        lemma_events_ok_concat(head + item_events(target@, rv), tail);
    }
    let mut s = String::new();
    block.write_to_string(&mut s);
    proof {
        assert(s@ =~= cmark_text(fragment_events(target@, rv)));
    }
    s
}

/// The paths that an index describing `items` holds are all well formed.
proof fn lemma_describes_wf(idx: BacklinkIndex, items: Seq<BookItem>)
    requires
        idx.describes(items),
    ensures
        forall|a: int| 0 <= a < idx.spec_targets().len() ==> (#[trigger] idx.spec_targets()[a]).wf(),
        forall|a: int, x: int|
            0 <= a < idx.spec_lists().len() && 0 <= x < idx.spec_lists()[a].len() ==> (#[trigger] idx.spec_lists()[a][x]).path.wf(),
{
    assert forall|a: int, x: int|
        0 <= a < idx.spec_lists().len() && 0 <= x < idx.spec_lists()[a].len() implies (#[trigger] idx.spec_lists()[a][x]).path.wf() by {
        let r = idx.spec_lists()[a][x];
        assert(idx.spec_lists()[a].contains(r));
        let i = choose|i: int| 0 <= i < items.len() && i < items.len() && links_to(#[trigger] items[i], idx.spec_targets()[a]) && item_record(items[i]) == r;
        lemma_normalize_wf(item_source(items[i])->0);
    }
}

/// Appends to each chapter of `book` the backlinks block that `idx` holds
/// for it, where `idx` is the index of `book`; chapters without backlinks
/// and all other items stay as they are.
pub fn apply_backlinks(book: Book, idx: &BacklinkIndex) -> (r: Book)
    requires
        idx.describes(book.items@),
    ensures
        r.items.len() == book.items.len(),
        forall|i: int| 0 <= i < book.items.len() ==> spliced(#[trigger] book.items@[i], r.items@[i], *idx),
{
    let ghost items0 = book.items@;
    proof {
        lemma_describes_wf(*idx, items0);
    }
    let ghost orig = book.items@;
    let mut rest = book.items;
    let mut out: Vec<BookItem> = Vec::new();
    while rest.len() > 0
        invariant
            out.len() + rest.len() == orig.len(),
            rest@ == orig.skip(out.len() as int),
            idx.describes(items0),
            forall|a: int| 0 <= a < idx.spec_targets().len() ==> (#[trigger] idx.spec_targets()[a]).wf(),
            forall|a: int, x: int|
                0 <= a < idx.spec_lists().len() && 0 <= x < idx.spec_lists()[a].len() ==> (#[trigger] idx.spec_lists()[a][x]).path.wf(),
            forall|k: int| 0 <= k < out.len() ==> spliced(#[trigger] orig[k], out@[k], *idx),
        decreases rest.len(),
    {
        let ghost n = out.len() as int;
        let ghost out0 = out@;
        let it = rest.remove(0);
        proof {
            assert(it == orig[n]);
            assert(rest@ =~= orig.skip(n + 1));
        }
        match it {
            BookItem::Chapter(ch) => {
                let ghost c0 = ch;
                let mut ch = ch;
                let key = match &ch.source_path {
                    Some(sp) => match normalize_path(sp.as_str()) {
                        Ok(p) => Some(p),
                        Err(_) => None,
                    },
                    None => None,
                };
                proof {
                    assert(match key { Some(p) => item_key(orig[n]) == Some(p@), None => item_key(orig[n]) is None });
                }
                match key {
                    Some(p) => {
                        match idx.find(&p) {
                            Some(a) => {
                                proof {
                                    let t = idx.spec_targets();
                                    assert(t.contains(p@));
                                    let c = choose|c: int| 0 <= c < t.len() && t[c] == p@;
                                    assert(c == a);
                                    assert(entry_of(*idx, p@) == records_view(idx.records@[a as int]@));
                                }
                                if idx.records[a].len() > 0 {
                                    proof {
                                        assert forall|x: int| 0 <= x < idx.records@[a as int].len() implies (#[trigger] idx.records@[a as int]@[x]).path@.wf() by {
                                            assert(idx.spec_lists()[a as int][x] == idx.records@[a as int]@[x]@);
                                        }
                                    }
                                    let frag = render_backlinks(&p, &idx.records[a]);
                                    let pad = "\n\n".to_string();
                                    proof {
                                        reveal_strlit("\n\n");
                                        assert(pad@ =~= padding());
                                    }
                                    ch.content.append(pad.as_str());
                                    ch.content.append(frag.as_str());
                                }
                            },
                            None => {
                                proof {
                                    assert(entry_of(*idx, p@) == Seq::<RecordV>::empty());
                                }
                            },
                        }
                    },
                    None => {},
                }
                out.push(BookItem::Chapter(ch));
                proof {
                    assert(spliced(orig[n], out@[n], *idx));
                }
            },
            other => {
                out.push(other);
            },
        }
        proof {
            assert forall|k: int| 0 <= k < out.len() implies spliced(#[trigger] orig[k], out@[k], *idx) by {
                if k < n {
                    assert(out@[k] == out0[k]);
                }
            }
        }
    }
    Book { items: out }
}

/// Appends to every chapter of `book` that other chapters link to a block
/// that lists them. Fails, and changes nothing, when a source path or a
/// link escapes the root of the book.
pub fn process_book(book: Book) -> (r: Result<Book, PathError>)
    ensures
        r is Ok <==> book_ok(book.items@),
        r matches Err(e) ==> e == PathError::EscapesRoot,
        r matches Ok(out) ==> out.items.len() == book.items.len() && exists|idx: BacklinkIndex|
            idx.describes(book.items@) && forall|i: int|
                0 <= i < book.items.len() ==> spliced(#[trigger] book.items@[i], out.items@[i], idx),
{
    match build_index(&book) {
        Err(e) => Err(e),
        Ok(idx) => {
            let ghost items = book.items@;
            let out = apply_backlinks(book, &idx);
            proof {
                assert(idx.describes(items) && forall|i: int|
                    0 <= i < items.len() ==> spliced(#[trigger] items[i], out.items@[i], idx));
            }
            Ok(out)
        },
    }
}

/// A chapter without a source path leaves no backlink anywhere, and its
/// content is not changed.
pub proof fn law_pathless_chapter_takes_no_part(idx: BacklinkIndex, items: Seq<BookItem>, i: int, after: BookItem)
    requires
        idx.describes(items),
        0 <= i < items.len(),
        items[i] is Chapter,
        item_source(items[i]) is None,
        spliced(items[i], after, idx),
    ensures
        forall|k: NormPath| !links_to(items[i], k),
        forall|a: int, r: RecordV|
            0 <= a < idx.spec_lists().len() && idx.spec_lists()[a].contains(r) ==> exists|i2: int|
                0 <= i2 < items.len() && (#[trigger] item_source(items[i2])) is Some && item_record(items[i2]) == r,
        after matches BookItem::Chapter(d) && d.content@ == items[i]->Chapter_0.content@,
{
    assert forall|a: int, r: RecordV|
        0 <= a < idx.spec_lists().len() && idx.spec_lists()[a].contains(r) implies exists|i2: int|
            0 <= i2 < items.len() && (#[trigger] item_source(items[i2])) is Some && item_record(items[i2]) == r by {
        assert(is_backlink(items, idx.spec_targets()[a], r));
        let i2 = choose|i2: int| 0 <= i2 < items.len() && i2 < items.len() && links_to(#[trigger] items[i2], idx.spec_targets()[a]) && item_record(items[i2]) == r;
        assert(item_source(items[i2]) is Some);
    }
}

/// A chapter that no chapter links to keeps its content byte for byte.
pub proof fn law_unlinked_chapter_unchanged(idx: BacklinkIndex, items: Seq<BookItem>, i: int, after: BookItem)
    requires
        idx.describes(items),
        0 <= i < items.len(),
        items[i] is Chapter,
        item_key(items[i]) is Some ==> forall|i2: int|
            0 <= i2 < items.len() ==> !links_to(#[trigger] items[i2], item_key(items[i])->0),
        spliced(items[i], after, idx),
    ensures
        after matches BookItem::Chapter(d) && d.content@ == items[i]->Chapter_0.content@,
{
    match item_key(items[i]) {
        Some(k) => {
            let t = idx.spec_targets();
            assert(t.contains(k));
            let a = choose|a: int| 0 <= a < t.len() && t[a] == k;
            let l = idx.spec_lists()[a];
            if l.len() > 0 {
                assert(l.contains(l[0]));
                assert(is_backlink(items, k, l[0]));
                let i2 = choose|i2: int| 0 <= i2 < items.len() && i2 < items.len() && links_to(#[trigger] items[i2], k) && item_record(items[i2]) == l[0];
                assert(!links_to(items[i2], k));
            }
        },
        None => {},
    }
}

/// Two indexes of the same book hold the same backlinks, in the same order,
/// for every chapter: building the index again changes nothing.
pub proof fn law_index_is_determined(x: BacklinkIndex, y: BacklinkIndex, items: Seq<BookItem>)
    requires
        x.describes(items),
        y.describes(items),
    ensures
        forall|k: NormPath| #[trigger] entry_of(x, k) == entry_of(y, k),
{
    assert forall|k: NormPath| #[trigger] entry_of(x, k) == entry_of(y, k) by {
        let tx = x.spec_targets();
        let ty = y.spec_targets();
        if tx.contains(k) {
            let a = choose|a: int| 0 <= a < tx.len() && tx[a] == k;
            assert(is_chapter_key(items, tx[a]));
            let i = choose|i: int| 0 <= i < items.len() && #[trigger] item_key(items[i]) == Some(k);
            assert(ty.contains(k));
            let b = choose|b: int| 0 <= b < ty.len() && ty[b] == k;
            let lx = x.spec_lists()[a];
            let ly = y.spec_lists()[b];
            assert forall|r: RecordV| lx.contains(r) <==> ly.contains(r) by {
                assert(lx.contains(r) <==> is_backlink(items, k, r));
                assert(ly.contains(r) <==> is_backlink(items, k, r));
            }
            assert(sorted(lx));
            assert(sorted(ly));
            lemma_sorted_unique(lx, ly);
        } else if ty.contains(k) {
            let b = choose|b: int| 0 <= b < ty.len() && ty[b] == k;
            assert(is_chapter_key(items, ty[b]));
            let i = choose|i: int| 0 <= i < items.len() && #[trigger] item_key(items[i]) == Some(k);
            assert(tx.contains(k));
        }
    }
}

} // verus!
