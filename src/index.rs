use vstd::prelude::*;

use std::cmp::Ordering;

use crate::book::{
    backlink_upto, book_ok, is_backlink, is_chapter_key, item_key, item_links, item_record, item_source, links_ok,
    links_to, links_to_upto, number_view, paths_ok, Book, BookItem, RecordV,
};
use crate::markdown::extract_links;
use crate::order::{
    cmp_numbers, cmp_segments, cmp_text, flip, lemma_number_cmp, lemma_number_cmp_trans, lemma_segments_cmp,
    lemma_segments_cmp_trans, lemma_text_cmp, lemma_text_cmp_trans, number_cmp, segments_cmp, text_cmp, then,
};
use crate::path::{normalize_path, resolve_link, NormPath, NormalizedPath, PathError};

verus! {

/// A chapter that links to another: its number, name and normalized path.
pub struct BacklinkRecord {
    pub number: Option<Vec<u32>>,
    pub name: String,
    pub path: NormalizedPath,
}

impl View for BacklinkRecord {
    type V = RecordV;

    open spec fn view(&self) -> RecordV {
        RecordV { number: number_view(self.number), name: self.name@, path: self.path@ }
    }
}

/// Unnumbered first, then section numbers in dictionary order.
pub open spec fn opt_number_cmp(a: Option<Seq<u32>>, b: Option<Seq<u32>>) -> Ordering {
    match (a, b) {
        (None, None) => Ordering::Equal,
        (None, Some(_)) => Ordering::Less,
        (Some(_), None) => Ordering::Greater,
        (Some(x), Some(y)) => number_cmp(x, y),
    }
}

pub open spec fn bool_cmp(a: bool, b: bool) -> Ordering {
    if a == b {
        Ordering::Equal
    } else if !a {
        Ordering::Less
    } else {
        Ordering::Greater
    }
}

/// Relative paths first, then by segments.
pub open spec fn path_cmp(a: NormPath, b: NormPath) -> Ordering {
    then(bool_cmp(a.absolute, b.absolute), segments_cmp(a.segments, b.segments))
}

/// The order of backlinks: by number, then name, then path.
pub open spec fn record_cmp(a: RecordV, b: RecordV) -> Ordering {
    then(opt_number_cmp(a.number, b.number), then(text_cmp(a.name, b.name), path_cmp(a.path, b.path)))
}

/// Each record comes strictly before the next.
pub open spec fn sorted(s: Seq<RecordV>) -> bool {
    forall|i: int| 0 <= i < s.len() - 1 ==> #[trigger] record_cmp(s[i], s[i + 1]) == Ordering::Less
}

/// `record_cmp` is `Equal` exactly on equal records, and swapping its
/// arguments flips it.
pub proof fn lemma_record_cmp(a: RecordV, b: RecordV)
    ensures
        record_cmp(a, b) == Ordering::Equal <==> a == b,
        record_cmp(b, a) == flip(record_cmp(a, b)),
{
    match (a.number, b.number) {
        (Some(x), Some(y)) => lemma_number_cmp(x, y),
        _ => {},
    }
    lemma_text_cmp(a.name, b.name);
    lemma_segments_cmp(a.path.segments, b.path.segments);
}

pub open spec fn records_view(v: Seq<BacklinkRecord>) -> Seq<RecordV> {
    v.map_values(|r: BacklinkRecord| r@)
}

fn copy_number(n: &Option<Vec<u32>>) -> (r: Option<Vec<u32>>)
    ensures
        number_view(r) == number_view(*n),
{
    match n {
        None => None,
        Some(v) => {
            let mut w: Vec<u32> = Vec::new();
            let mut i: usize = 0;
            while i < v.len()
                invariant
                    0 <= i <= v.len(),
                    w@ == v@.take(i as int),
                decreases v.len() - i,
            {
                w.push(v[i]);
                proof {
                    assert(v@.take(i + 1) =~= v@.take(i as int).push(v@[i as int]));
                }
                i = i + 1;
            }
            proof {
                assert(v@.take(v.len() as int) =~= v@);
            }
            Some(w)
        },
    }
}

impl NormalizedPath {
    /// A copy of this path.
    pub fn duplicate(&self) -> (r: NormalizedPath)
        ensures
            r@ == self@,
    {
        let mut w: Vec<String> = Vec::new();
        let mut i: usize = 0;
        while i < self.segments.len()
            invariant
                0 <= i <= self.segments.len(),
                w@.map_values(|s: String| s@) == self@.segments.take(i as int),
            decreases self.segments.len() - i,
        {
            w.push(self.segments[i].clone());
            proof {
                assert(self@.segments.take(i + 1) =~= self@.segments.take(i as int).push(self.segments@[i as int]@));
            }
            i = i + 1;
        }
        proof {
            assert(self@.segments.take(self.segments.len() as int) =~= self@.segments);
        }
        NormalizedPath { absolute: self.absolute, segments: w }
    }

    /// Whether two normalized paths are the same.
    pub fn same(&self, o: &NormalizedPath) -> (r: bool)
        ensures
            r == (self@ == o@),
    {
        proof {
            lemma_segments_cmp(self@.segments, o@.segments);
        }
        self.absolute == o.absolute && matches!(cmp_segments(&self.segments, &o.segments), Ordering::Equal)
    }
}

impl BacklinkRecord {
    /// Compares two backlinks: by number, then name, then path.
    pub fn compare(&self, o: &BacklinkRecord) -> (r: Ordering)
        ensures
            r == record_cmp(self@, o@),
    {
        let c1 = match (&self.number, &o.number) {
            (None, None) => Ordering::Equal,
            (None, Some(_)) => Ordering::Less,
            (Some(_), None) => Ordering::Greater,
            (Some(x), Some(y)) => cmp_numbers(x, y),
        };
        if !matches!(c1, Ordering::Equal) {
            return c1;
        }
        let c2 = cmp_text(self.name.as_str(), o.name.as_str());
        if !matches!(c2, Ordering::Equal) {
            return c2;
        }
        if self.path.absolute != o.path.absolute {
            if !self.path.absolute {
                return Ordering::Less;
            } else {
                return Ordering::Greater;
            }
        }
        cmp_segments(&self.path.segments, &o.path.segments)
    }
}

/// Adds `rec` to the sorted list `list` unless it is there already.
pub fn insert_record(list: &mut Vec<BacklinkRecord>, rec: BacklinkRecord)
    requires
        sorted(records_view(old(list)@)),
        records_view(old(list)@).no_duplicates(),
    ensures
        sorted(records_view(final(list)@)),
        records_view(final(list)@).no_duplicates(),
        forall|r: RecordV|
            records_view(final(list)@).contains(r) <==> (records_view(old(list)@).contains(r) || r == rec@),
{
    let ghost before = records_view(list@);
    let mut j: usize = 0;
    while j < list.len()
        invariant
            0 <= j <= list.len(),
            before == records_view(list@),
            list@ == old(list)@,
            sorted(before),
            before.no_duplicates(),
            forall|k: int| 0 <= k < j ==> before[k] != rec@,
        decreases list.len() - j,
    {
        let c = list[j].compare(&rec);
        proof {
            lemma_record_cmp(list@[j as int]@, rec@);
        }
        if matches!(c, Ordering::Equal) {
            proof {
                assert(before[j as int] == rec@);
            }
            return;
        }
        j = j + 1;
    }
    let mut i: usize = 0;
    while i < list.len() && matches!(list[i].compare(&rec), Ordering::Less)
        invariant
            0 <= i <= list.len(),
            before == records_view(list@),
            list@ == old(list)@,
            sorted(before),
            before.no_duplicates(),
            forall|k: int| 0 <= k < list.len() ==> before[k] != rec@,
            forall|k: int| 0 <= k < i ==> record_cmp(#[trigger] before[k], rec@) == Ordering::Less,
        decreases list.len() - i,
    {
        i = i + 1;
    }
    proof {
        if i < list.len() {
            lemma_record_cmp(before[i as int], rec@);
            assert(before[i as int] != rec@);
        }
    }
    let ghost rv = rec@;
    list.insert(i, rec);
    proof {
        let after = records_view(list@);
        assert(after =~= before.insert(i as int, rv));
        assert forall|k: int| 0 <= k < after.len() - 1 implies #[trigger] record_cmp(after[k], after[k + 1]) == Ordering::Less by {
            if k < i as int - 1 {
                assert(record_cmp(before[k], before[k + 1]) == Ordering::Less);
            } else if k == i as int - 1 {
            } else if k == i as int {
                lemma_record_cmp(before[i as int], rv);
            } else {
                let k0 = k - 1;
                assert(record_cmp(before[k0], before[k0 + 1]) == Ordering::Less);
                assert(after[k] == before[k0] && after[k + 1] == before[k0 + 1]);
            }
        }
        assert forall|r: RecordV| after.contains(r) <==> (before.contains(r) || r == rv) by {
            if after.contains(r) {
                let k = choose|k: int| 0 <= k < after.len() && after[k] == r;
                if k < i {
                    assert(before[k] == r);
                } else if k > i {
                    assert(before[k - 1] == r);
                }
            }
            if before.contains(r) {
                let k = choose|k: int| 0 <= k < before.len() && before[k] == r;
                if k < i {
                    assert(after[k] == r);
                } else {
                    assert(after[k + 1] == r);
                }
            }
            if r == rv {
                assert(after[i as int] == r);
            }
        }
        assert(!before.contains(rv));
        assert(after.no_duplicates()) by {
            assert forall|a: int, b: int| 0 <= a < after.len() && 0 <= b < after.len() && a != b implies after[a] != after[b] by {
                if a != i && b != i {
                    let a0 = if a < i { a } else { a - 1 };
                    let b0 = if b < i { b } else { b - 1 };
                    assert(after[a] == before[a0]);
                    assert(after[b] == before[b0]);
                } else if a == i {
                    let b0 = if b < i { b } else { b - 1 };
                    assert(after[b] == before[b0]);
                } else {
                    let a0 = if a < i { a } else { a - 1 };
                    assert(after[a] == before[a0]);
                }
            }
        }
    }
}

/// For each chapter of a book, the chapters that link to it.
pub struct BacklinkIndex {
    /// The normalized paths of the chapters, each once.
    pub targets: Vec<NormalizedPath>,
    /// For each target, the backlinks to it, sorted and without repeats.
    pub records: Vec<Vec<BacklinkRecord>>,
}

pub open spec fn targets_view(v: Seq<NormalizedPath>) -> Seq<NormPath> {
    v.map_values(|p: NormalizedPath| p@)
}

pub open spec fn lists_view(v: Seq<Vec<BacklinkRecord>>) -> Seq<Seq<RecordV>> {
    v.map_values(|l: Vec<BacklinkRecord>| records_view(l@))
}

impl BacklinkIndex {
    pub open spec fn spec_targets(&self) -> Seq<NormPath> {
        targets_view(self.targets@)
    }

    pub open spec fn spec_lists(&self) -> Seq<Seq<RecordV>> {
        lists_view(self.records@)
    }

    /// The index holds one entry for each chapter path of `items` and no
    /// other, and each entry lists, sorted and once each, exactly the
    /// backlinks of the chapters that link to it.
    pub open spec fn describes(&self, items: Seq<BookItem>) -> bool {
        let t = self.spec_targets();
        let l = self.spec_lists();
        &&& t.len() == l.len()
        &&& t.no_duplicates()
        &&& forall|a: int| 0 <= a < t.len() ==> (#[trigger] t[a]).wf() && is_chapter_key(items, t[a])
        &&& forall|i: int|
            0 <= i < items.len() && (#[trigger] item_key(items[i])) is Some ==> t.contains(item_key(items[i])->0)
        &&& forall|a: int| 0 <= a < l.len() ==> sorted(#[trigger] l[a]) && l[a].no_duplicates()
        &&& forall|a: int, r: RecordV| 0 <= a < l.len() ==> (#[trigger] l[a].contains(r) <==> is_backlink(items, t[a], r))
    }

    /// The position of the entry for `k`, if there is one.
    pub fn find(&self, k: &NormalizedPath) -> (r: Option<usize>)
        ensures
            match r {
                Some(a) => a < self.targets.len() && self.spec_targets()[a as int] == k@,
                None => !self.spec_targets().contains(k@),
            },
    {
        find_target(&self.targets, k)
    }
}

fn find_target(targets: &Vec<NormalizedPath>, k: &NormalizedPath) -> (r: Option<usize>)
    ensures
        match r {
            Some(a) => a < targets.len() && targets_view(targets@)[a as int] == k@,
            None => !targets_view(targets@).contains(k@),
        },
{
    let mut a: usize = 0;
    while a < targets.len()
        invariant
            0 <= a <= targets.len(),
            forall|b: int| 0 <= b < a ==> targets_view(targets@)[b] != k@,
        decreases targets.len() - a,
    {
        if targets[a].same(k) {
            return Some(a);
        }
        a = a + 1;
    }
    None
}

proof fn lemma_backlink_step(items: Seq<BookItem>, k: NormPath, r: RecordV, i: int)
    requires
        0 <= i < items.len(),
    ensures
        backlink_upto(items, k, r, i + 1) <==> (backlink_upto(items, k, r, i) || (links_to(items[i], k)
            && item_record(items[i]) == r)),
{
    if backlink_upto(items, k, r, i + 1) {
        let w = choose|w: int| 0 <= w < i + 1 && w < items.len() && links_to(#[trigger] items[w], k) && item_record(items[w]) == r;
        if w < i {
            assert(backlink_upto(items, k, r, i));
        }
    }
    if backlink_upto(items, k, r, i) {
        let w = choose|w: int| 0 <= w < i && w < items.len() && links_to(#[trigger] items[w], k) && item_record(items[w]) == r;
        assert(backlink_upto(items, k, r, i + 1));
    }
    if links_to(items[i], k) && item_record(items[i]) == r {
        assert(backlink_upto(items, k, r, i + 1));
    }
}

proof fn lemma_links_step(it: BookItem, k: NormPath, j: int)
    requires
        0 <= j < item_links(it).len(),
    ensures
        links_to_upto(it, k, j + 1) <==> (links_to_upto(it, k, j) || (item_key(it) matches Some(p)
            && resolve_link(p, item_links(it)[j]) == Some(k))),
{
    if links_to_upto(it, k, j + 1) {
        let p = item_key(it)->0;
        let w = choose|w: int| 0 <= w < j + 1 && w < item_links(it).len() && resolve_link(p, #[trigger] item_links(it)[w]) == Some(k);
        if w < j {
            assert(links_to_upto(it, k, j));
        }
    }
}

/// Builds the index of a book: an entry for every chapter with a source
/// path, filled with the chapters whose links lead to it. Fails when a
/// source path or a link escapes the root of the book.
pub fn build_index(book: &Book) -> (r: Result<BacklinkIndex, PathError>)
    ensures
        r is Ok <==> book_ok(book.items@),
        r matches Ok(idx) ==> idx.describes(book.items@),
        r matches Err(e) ==> e == PathError::EscapesRoot,
{
    let ghost items = book.items@;
    let mut targets: Vec<NormalizedPath> = Vec::new();
    let mut lists: Vec<Vec<BacklinkRecord>> = Vec::new();
    let mut i: usize = 0;
    while i < book.items.len()
        invariant
            0 <= i <= book.items.len(),
            items == book.items@,
            targets.len() == lists.len(),
            targets_view(targets@).no_duplicates(),
            forall|a: int| 0 <= a < targets.len() ==> lists@[a]@.len() == 0,
            forall|a: int|
                0 <= a < targets.len() ==> (#[trigger] targets_view(targets@)[a]).wf() && is_chapter_key(
                    items,
                    targets_view(targets@)[a],
                ),
            forall|i2: int|
                0 <= i2 < i && (#[trigger] item_key(items[i2])) is Some ==> targets_view(targets@).contains(
                    item_key(items[i2])->0,
                ),
            forall|i2: int| 0 <= i2 < i && (#[trigger] item_source(items[i2])) is Some ==> item_key(items[i2]) is Some,
        decreases book.items.len() - i,
    {
        match &book.items[i] {
            BookItem::Chapter(ch) => {
                match &ch.source_path {
                    Some(sp) => {
                        match normalize_path(sp.as_str()) {
                            Err(e) => {
                                proof {
                                    assert(item_source(items[i as int]) is Some);
                                }
                                return Err(e);
                            },
                            Ok(p) => {
                                let ghost tv = targets_view(targets@);
                                proof {
                                    assert(item_key(items[i as int]) == Some(p@));
                                }
                                match find_target(&targets, &p) {
                                    Some(a) => {
                                        proof {
                                            assert(tv[a as int] == p@);
                                        }
                                    },
                                    None => {
                                        targets.push(p);
                                        lists.push(Vec::new());
                                        proof {
                                            assert(targets_view(targets@) =~= tv.push(p@));
                                            assert(targets_view(targets@)[tv.len() as int] == p@);
                                            assert forall|x: NormPath| tv.contains(x) implies targets_view(targets@).contains(x) by {
                                                let k = choose|k: int| 0 <= k < tv.len() && tv[k] == x;
                                                assert(targets_view(targets@)[k] == x);
                                            }
                                        }
                                    },
                                }
                                proof {
                                    assert(targets_view(targets@).contains(item_key(items[i as int])->0));
                                }
                            },
                        }
                    },
                    None => {},
                }
            },
            _ => {},
        }
        i = i + 1;
    }
    proof {
        assert(paths_ok(items));
        assert forall|a: int, r: RecordV| 0 <= a < lists.len() implies (#[trigger] lists_view(lists@)[a].contains(r)
            <==> backlink_upto(items, targets_view(targets@)[a], r, 0)) by {
            assert(lists_view(lists@)[a].len() == 0);
        }
    }
    let ghost tv = targets_view(targets@);
    let mut i: usize = 0;
    while i < book.items.len()
        invariant
            0 <= i <= book.items.len(),
            items == book.items@,
            paths_ok(items),
            tv == targets_view(targets@),
            tv.no_duplicates(),
            targets.len() == lists.len(),
            forall|a: int| 0 <= a < lists.len() ==> sorted(#[trigger] lists_view(lists@)[a]) && lists_view(lists@)[a].no_duplicates(),
            forall|a: int, r: RecordV| 0 <= a < lists.len() ==> (#[trigger] lists_view(lists@)[a].contains(r)
                <==> backlink_upto(items, tv[a], r, i as int)),
            forall|i2: int, j2: int|
                0 <= i2 < i && item_key(items[i2]) is Some && 0 <= j2 < item_links(items[i2]).len()
                    ==> resolve_link(item_key(items[i2])->0, #[trigger] item_links(items[i2])[j2]) is Some,
        decreases book.items.len() - i,
    {
        let ghost it = items[i as int];
        let ghost start = lists_view(lists@);
        match &book.items[i] {
            BookItem::Chapter(ch) => {
                match &ch.source_path {
                    Some(sp) => {
                        let p = match normalize_path(sp.as_str()) {
                            Err(e) => {
                                proof {
                                    assert(item_source(it) is Some);
                                }
                                return Err(e);
                            },
                            Ok(p) => p,
                        };
                        proof {
                            assert(item_key(it) == Some(p@));
                        }
                        let dests = extract_links(ch.content.as_str());
                        let mut j: usize = 0;
                        while j < dests.len()
                            invariant
                                0 <= j <= dests.len(),
                                items == book.items@,
                                it == items[i as int],
                                0 <= i < items.len(),
                                paths_ok(items),
                                item_key(it) == Some(p@),
                                p@.wf(),
                                dests@.map_values(|s: String| s@) == item_links(it),
                                it matches BookItem::Chapter(c) && c.number == ch.number && c.name == ch.name,
                                tv == targets_view(targets@),
                                tv.no_duplicates(),
                                targets.len() == lists.len(),
                                forall|a: int| 0 <= a < lists.len() ==> sorted(#[trigger] lists_view(lists@)[a]) && lists_view(lists@)[a].no_duplicates(),
                                forall|a: int, r: RecordV| 0 <= a < lists.len() ==> (#[trigger] lists_view(lists@)[a].contains(r)
                                    <==> (backlink_upto(items, tv[a], r, i as int) || (links_to_upto(it, tv[a], j as int) && r == item_record(it)))),
                                forall|i2: int, j2: int|
                                    0 <= i2 < i && item_key(items[i2]) is Some && 0 <= j2 < item_links(items[i2]).len()
                                        ==> resolve_link(item_key(items[i2])->0, #[trigger] item_links(items[i2])[j2]) is Some,
                                forall|j2: int| 0 <= j2 < j ==> resolve_link(p@, #[trigger] item_links(it)[j2]) is Some,
                            decreases dests.len() - j,
                        {
                            proof {
                                assert(item_links(it)[j as int] == dests@[j as int]@);
                            }
                            let target = match p.join_link(dests[j].as_str()) {
                                Err(e) => {
                                    proof {
                                        assert(!links_ok(items)) by {
                                            assert(resolve_link(item_key(items[i as int])->0, item_links(items[i as int])[j as int]) is None);
                                        }
                                    }
                                    return Err(e);
                                },
                                Ok(t) => t,
                            };
                            let ghost before = lists_view(lists@);
                            let ghost k = target@;
                            proof {
                                assert(resolve_link(p@, item_links(it)[j as int]) == Some(k));
                            }
                            match find_target(&targets, &target) {
                                Some(a) => {
                                    let rec = BacklinkRecord {
                                        number: copy_number(&ch.number),
                                        name: ch.name.clone(),
                                        path: p.duplicate(),
                                    };
                                    proof {
                                        assert(rec@ == item_record(it));
                                        assert(sorted(before[a as int]) && before[a as int].no_duplicates());
                                        assert(before[a as int] == records_view(lists@[a as int]@));
                                    }
                                    let mut l = lists.remove(a);
                                    insert_record(&mut l, rec);
                                    lists.insert(a, l);
                                    proof {
                                        assert(lists_view(lists@) =~= before.update(a as int, records_view(l@)));
                                        assert forall|a2: int| 0 <= a2 < lists.len() implies sorted(#[trigger] lists_view(lists@)[a2]) && lists_view(lists@)[a2].no_duplicates() by {
                                            if a2 != a {
                                                assert(lists_view(lists@)[a2] == before[a2]);
                                            }
                                        }
                                        assert forall|a2: int, r: RecordV| 0 <= a2 < lists.len() implies (#[trigger] lists_view(lists@)[a2].contains(r)
                                            <==> (backlink_upto(items, tv[a2], r, i as int) || (links_to_upto(it, tv[a2], j + 1) && r == item_record(it)))) by {
                                            lemma_links_step(it, tv[a2], j as int);
                                            if a2 != a {
                                                assert(lists_view(lists@)[a2] == before[a2]);
                                                assert(tv[a2] != k);
                                            } else {
                                                assert(before[a2].contains(r) <==> (backlink_upto(items, tv[a2], r, i as int) || (links_to_upto(it, tv[a2], j as int) && r == item_record(it))));
                                            }
                                        }
                                    }
                                },
                                None => {
                                    proof {
                                        assert forall|a2: int, r: RecordV| 0 <= a2 < lists.len() implies (#[trigger] lists_view(lists@)[a2].contains(r)
                                            <==> (backlink_upto(items, tv[a2], r, i as int) || (links_to_upto(it, tv[a2], j + 1) && r == item_record(it)))) by {
                                            lemma_links_step(it, tv[a2], j as int);
                                            assert(tv[a2] != k);
                                        }
                                    }
                                },
                            }
                            j = j + 1;
                        }
                    },
                    None => {},
                }
            },
            _ => {},
        }
        proof {
            assert forall|a: int, r: RecordV| 0 <= a < lists.len() implies (#[trigger] lists_view(lists@)[a].contains(r)
                <==> backlink_upto(items, tv[a], r, i + 1)) by {
                lemma_backlink_step(items, tv[a], r, i as int);
            }
        }
        i = i + 1;
    }
    let idx = BacklinkIndex { targets, records: lists };
    proof {
        assert(links_ok(items));
    }
    Ok(idx)
}

/// A chapter that links to a target, once or many times, stands exactly
/// once among the target's backlinks.
pub proof fn law_one_backlink_per_source(idx: BacklinkIndex, items: Seq<BookItem>, a: int, i: int)
    requires
        idx.describes(items),
        0 <= a < idx.spec_targets().len(),
        0 <= i < items.len(),
        links_to(items[i], idx.spec_targets()[a]),
    ensures
        idx.spec_lists()[a].contains(item_record(items[i])),
        forall|x: int, y: int|
            0 <= x < idx.spec_lists()[a].len() && 0 <= y < idx.spec_lists()[a].len() && idx.spec_lists()[a][x]
                == item_record(items[i]) && idx.spec_lists()[a][y] == item_record(items[i]) ==> x == y,
{
    assert(backlink_upto(items, idx.spec_targets()[a], item_record(items[i]), items.len() as int));
    assert(sorted(idx.spec_lists()[a]) && idx.spec_lists()[a].no_duplicates());
}

/// `record_cmp` is transitive on `Less`.
pub proof fn lemma_record_cmp_trans(a: RecordV, b: RecordV, c: RecordV)
    ensures
        record_cmp(a, b) == Ordering::Less && record_cmp(b, c) == Ordering::Less ==> record_cmp(a, c) == Ordering::Less,
{
    match (a.number, b.number, c.number) {
        (Some(x), Some(y), Some(z)) => {
            lemma_number_cmp(x, y);
            lemma_number_cmp(y, z);
            lemma_number_cmp(x, z);
            lemma_number_cmp_trans(x, y, z);
        },
        (Some(x), Some(y), None) => lemma_number_cmp(x, y),
        (None, Some(y), Some(z)) => lemma_number_cmp(y, z),
        _ => {},
    }
    lemma_text_cmp(a.name, b.name);
    lemma_text_cmp(b.name, c.name);
    lemma_text_cmp(a.name, c.name);
    lemma_text_cmp_trans(a.name, b.name, c.name);
    lemma_segments_cmp(a.path.segments, b.path.segments);
    lemma_segments_cmp(b.path.segments, c.path.segments);
    lemma_segments_cmp(a.path.segments, c.path.segments);
    lemma_segments_cmp_trans(a.path.segments, b.path.segments, c.path.segments);
}

/// In a sorted list every record comes before every later one.
pub proof fn lemma_sorted_all(s: Seq<RecordV>, i: int, j: int)
    requires
        sorted(s),
        0 <= i < j < s.len(),
    ensures
        record_cmp(s[i], s[j]) == Ordering::Less,
    decreases j - i,
{
    if j > i + 1 {
        lemma_sorted_all(s, i, j - 1);
        assert(record_cmp(s[j - 1], s[(j - 1) + 1]) == Ordering::Less);
        lemma_record_cmp_trans(s[i], s[j - 1], s[j]);
    }
}

/// Two sorted lists that hold the same records are the same list.
pub proof fn lemma_sorted_unique(s: Seq<RecordV>, t: Seq<RecordV>)
    requires
        sorted(s),
        sorted(t),
        forall|r: RecordV| s.contains(r) <==> t.contains(r),
    ensures
        s == t,
    decreases s.len(),
{
    if s.len() == 0 {
        if t.len() > 0 {
            assert(t.contains(t[0]));
        }
        assert(s =~= t);
    } else {
        assert(s.contains(s[0]));
        assert(t.len() > 0);
        assert(t.contains(t[0]));
        if s[0] != t[0] {
            let j = choose|j: int| 0 <= j < t.len() && t[j] == s[0];
            let i = choose|i: int| 0 <= i < s.len() && s[i] == t[0];
            lemma_sorted_all(t, 0, j);
            lemma_sorted_all(s, 0, i);
            lemma_record_cmp(s[0], t[0]);
        }
        let s1 = s.drop_first();
        let t1 = t.drop_first();
        assert(sorted(s1)) by {
            assert forall|k: int| 0 <= k < s1.len() - 1 implies #[trigger] record_cmp(s1[k], s1[k + 1]) == Ordering::Less by {
                assert(record_cmp(s[k + 1], s[(k + 1) + 1]) == Ordering::Less);
            }
        }
        assert(sorted(t1)) by {
            assert forall|k: int| 0 <= k < t1.len() - 1 implies #[trigger] record_cmp(t1[k], t1[k + 1]) == Ordering::Less by {
                assert(record_cmp(t[k + 1], t[(k + 1) + 1]) == Ordering::Less);
            }
        }
        assert forall|r: RecordV| s1.contains(r) <==> t1.contains(r) by {
            if s1.contains(r) {
                let k = choose|k: int| 0 <= k < s1.len() && s1[k] == r;
                lemma_sorted_all(s, 0, k + 1);
                lemma_record_cmp(s[0], r);
                assert(s.contains(r));
                let m = choose|m: int| 0 <= m < t.len() && t[m] == r;
                assert(m != 0);
                assert(t1[m - 1] == r);
            }
            if t1.contains(r) {
                let k = choose|k: int| 0 <= k < t1.len() && t1[k] == r;
                lemma_sorted_all(t, 0, k + 1);
                lemma_record_cmp(t[0], r);
                assert(t.contains(r));
                let m = choose|m: int| 0 <= m < s.len() && s[m] == r;
                assert(m != 0);
                assert(s1[m - 1] == r);
            }
        }
        lemma_sorted_unique(s1, t1);
        assert(s =~= t) by {
            assert forall|k: int| 0 <= k < s.len() implies s[k] == t[k] by {
                if k > 0 {
                    assert(s[k] == s1[k - 1]);
                    assert(t[k] == t1[k - 1]);
                }
            }
        }
    }
}

} // verus!
