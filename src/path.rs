use vstd::prelude::*;

verus! {

broadcast use vstd::string::group_string_axioms;

/// The separator between the segments of a path.
pub open spec fn sep() -> char {
    '/'
}

/// `s` cut at every `c`, as `str::split` does: `""` gives one empty piece,
/// and a separator at either end gives an empty piece there.
pub open spec fn split_spec(s: Seq<char>, c: char) -> Seq<Seq<char>>
    decreases s.len(),
{
    if s.len() == 0 {
        seq![Seq::<char>::empty()]
    } else {
        let r = split_spec(s.drop_last(), c);
        if s.last() == c {
            r.push(Seq::<char>::empty())
        } else {
            r.update(r.len() - 1, r.last().push(s.last()))
        }
    }
}

/// The pieces of `v` with one `c` between each two of them.
pub open spec fn join_spec(v: Seq<Seq<char>>, c: char) -> Seq<char>
    decreases v.len(),
{
    if v.len() == 0 {
        Seq::<char>::empty()
    } else if v.len() == 1 {
        v[0]
    } else {
        join_spec(v.drop_last(), c) + seq![c] + v.last()
    }
}

pub open spec fn is_cur_dir(s: Seq<char>) -> bool {
    s == seq!['.']
}

pub open spec fn is_parent_dir(s: Seq<char>) -> bool {
    s == seq!['.', '.']
}

/// A segment that names a file or directory: not empty, no separator,
/// neither `.` nor `..`.
pub open spec fn is_name(s: Seq<char>) -> bool {
    &&& s.len() > 0
    &&& !s.contains(sep())
    &&& !is_cur_dir(s)
    &&& !is_parent_dir(s)
}

pub open spec fn all_names(v: Seq<Seq<char>>) -> bool {
    forall|i: int| 0 <= i < v.len() ==> is_name(#[trigger] v[i])
}

/// Lexical resolution of a list of segments, left to right: empty segments
/// and `.` are dropped, `..` removes the segment before it, and `..` with
/// nothing to remove escapes the root (`None`).
pub open spec fn resolve(segs: Seq<Seq<char>>) -> Option<Seq<Seq<char>>>
    decreases segs.len(),
{
    if segs.len() == 0 {
        Some(Seq::<Seq<char>>::empty())
    } else {
        match resolve(segs.drop_last()) {
            None => None,
            Some(acc) => {
                let s = segs.last();
                if s.len() == 0 || is_cur_dir(s) {
                    Some(acc)
                } else if is_parent_dir(s) {
                    if acc.len() == 0 {
                        None
                    } else {
                        Some(acc.drop_last())
                    }
                } else {
                    Some(acc.push(s))
                }
            },
        }
    }
}

/// A path with `.` and `..` resolved: whether it starts at the root, and
/// the names that follow.
pub struct NormalizedPath {
    pub absolute: bool,
    pub segments: Vec<String>,
}

/// The mathematical value of a normalized path.
pub struct NormPath {
    pub absolute: bool,
    pub segments: Seq<Seq<char>>,
}

impl View for NormalizedPath {
    type V = NormPath;

    open spec fn view(&self) -> NormPath {
        NormPath { absolute: self.absolute, segments: self.segments@.map_values(|s: String| s@) }
    }
}

impl NormPath {
    pub open spec fn wf(self) -> bool {
        all_names(self.segments)
    }

    /// The directory that holds this path: the last segment removed.
    pub open spec fn parent(self) -> NormPath {
        NormPath {
            absolute: self.absolute,
            segments: if self.segments.len() == 0 {
                self.segments
            } else {
                self.segments.drop_last()
            },
        }
    }

    /// The path written out, segments between slashes, with a leading
    /// slash when it starts at the root.
    pub open spec fn text(self) -> Seq<char> {
        if self.absolute {
            seq![sep()] + join_spec(self.segments, sep())
        } else {
            join_spec(self.segments, sep())
        }
    }
}

/// Whether a path in text starts at the root.
pub open spec fn is_absolute_text(p: Seq<char>) -> bool {
    p.len() > 0 && p[0] == sep()
}

/// The lexical normalization of the path `p`; `None` when it escapes the root.
pub open spec fn normalize(p: Seq<char>) -> Option<NormPath> {
    match resolve(split_spec(p, sep())) {
        None => None,
        Some(segs) => Some(NormPath { absolute: is_absolute_text(p), segments: segs }),
    }
}

/// What goes wrong when a path is normalized.
#[derive(PartialEq, Eq, Structural, Debug, Clone, Copy)]
pub enum PathError {
    /// More `..` than there are segments to remove.
    EscapesRoot,
}

/// Relies on `str::split`: the pieces of `s` between the slashes, in order.
#[verifier::external_body]
fn split_slash(s: &str) -> (r: Vec<String>)
    ensures
        r@.map_values(|x: String| x@) == split_spec(s@, sep()),
{
    s.split('/').map(|x| x.to_string()).collect()
}

/// Relies on `[String]::join`: the pieces of `v` with a slash between each two.
#[verifier::external_body]
fn join_slash(v: &Vec<String>) -> (r: String)
    ensures
        r@ == join_spec(v@.map_values(|x: String| x@), sep()),
{
    v.join("/")
}

/// Relies on `str::starts_with`: whether `s` begins with a slash.
#[verifier::external_body]
fn starts_with_slash(s: &str) -> (r: bool)
    ensures
        r == is_absolute_text(s@),
{
    s.starts_with('/')
}

/// Resolves `.` and `..` in the segments of `segs`, left to right.
fn resolve_segments(segs: &Vec<String>) -> (r: Option<Vec<String>>)
    ensures
        match resolve(segs@.map_values(|x: String| x@)) {
            None => r is None,
            Some(v) => r matches Some(w) && w@.map_values(|x: String| x@) == v,
        },
{
    let ghost input = segs@.map_values(|x: String| x@);
    let dot = ".".to_string();
    let dotdot = "..".to_string();
    proof {
        reveal_strlit(".");
        reveal_strlit("..");
    }
    let mut acc: Vec<String> = Vec::new();
    let mut i: usize = 0;
    while i < segs.len()
        invariant
            0 <= i <= segs.len(),
            input == segs@.map_values(|x: String| x@),
            dot@ == seq!['.'],
            dotdot@ == seq!['.', '.'],
            resolve(input.take(i as int)) == Some(acc@.map_values(|x: String| x@)),
        decreases segs.len() - i,
    {
        let ghost before = acc@.map_values(|x: String| x@);
        proof {
            assert(input.take(i + 1).drop_last() == input.take(i as int));
            assert(input.take(i + 1).last() == segs@[i as int]@);
        }
        let s = &segs[i];
        if s.as_str().is_empty() || *s == dot {
        } else if *s == dotdot {
            if acc.len() == 0 {
                proof {
                    lemma_resolve_none_prefix(input, i as int + 1);
                }
                return None;
            }
            acc.pop();
            proof {
                assert(acc@.map_values(|x: String| x@) =~= before.drop_last());
            }
        } else {
            acc.push(s.clone());
            proof {
                assert(acc@.map_values(|x: String| x@) =~= before.push(s@));
            }
        }
        i = i + 1;
    }
    proof {
        assert(input.take(segs.len() as int) == input);
    }
    Some(acc)
}

/// Once a prefix escapes the root, the whole list does.
proof fn lemma_resolve_none_prefix(s: Seq<Seq<char>>, k: int)
    requires
        0 <= k <= s.len(),
        resolve(s.take(k)) is None,
    ensures
        resolve(s) is None,
    decreases s.len() - k,
{
    if k < s.len() {
        assert(s.take(k + 1).drop_last() == s.take(k));
        lemma_resolve_none_prefix(s, k + 1);
    } else {
        assert(s.take(k) == s);
    }
}

/// Normalizes `path` lexically, without looking at any file system.
pub fn normalize_path(path: &str) -> (r: Result<NormalizedPath, PathError>)
    ensures
        match normalize(path@) {
            None => r == Err::<NormalizedPath, PathError>(PathError::EscapesRoot),
            Some(n) => r matches Ok(v) && v@ == n && n.wf(),
        },
{
    let absolute = starts_with_slash(path);
    let pieces = split_slash(path);
    proof {
        lemma_split_no_sep(path@, sep());
    }
    match resolve_segments(&pieces) {
        None => Err(PathError::EscapesRoot),
        Some(segments) => {
            proof {
                lemma_resolve_names(pieces@.map_values(|x: String| x@));
            }
            Ok(NormalizedPath { absolute, segments })
        },
    }
}

impl NormalizedPath {
    /// The path as text: segments between slashes, with a leading slash when
    /// it starts at the root.
    pub fn to_path_string(&self) -> (r: String)
        ensures
            r@ == self@.text(),
    {
        let joined = join_slash(&self.segments);
        if self.absolute {
            let mut r = "/".to_string();
            proof {
                reveal_strlit("/");
            }
            r.append(joined.as_str());
            r
        } else {
            joined
        }
    }
}

/// No piece of a split holds the separator.
pub proof fn lemma_split_no_sep(s: Seq<char>, c: char)
    ensures
        forall|i: int| 0 <= i < split_spec(s, c).len() ==> !(#[trigger] split_spec(s, c)[i]).contains(c),
        split_spec(s, c).len() >= 1,
    decreases s.len(),
{
    if s.len() > 0 {
        lemma_split_no_sep(s.drop_last(), c);
        let r = split_spec(s.drop_last(), c);
        if s.last() != c {
            assert forall|i: int| 0 <= i < split_spec(s, c).len() implies !(#[trigger] split_spec(s, c)[i]).contains(c) by {
                if i == r.len() - 1 {
                    let q = r.last().push(s.last());
                    if q.contains(c) {
                        let j = choose|j: int| 0 <= j < q.len() && q[j] == c;
                        if j < r.last().len() {
                            assert(r.last().contains(c));
                        }
                    }
                }
            }
        }
    }
}

/// Resolution keeps only names when no piece holds the separator.
pub proof fn lemma_resolve_names(segs: Seq<Seq<char>>)
    requires
        forall|i: int| 0 <= i < segs.len() ==> !(#[trigger] segs[i]).contains(sep()),
    ensures
        resolve(segs) matches Some(r) ==> all_names(r),
    decreases segs.len(),
{
    if segs.len() > 0 {
        let d = segs.drop_last();
        assert forall|i: int| 0 <= i < d.len() implies !(#[trigger] d[i]).contains(sep()) by {
            assert(d[i] == segs[i]);
        }
        lemma_resolve_names(d);
    }
}

/// Splitting at a separator splits each side on its own.
pub proof fn lemma_split_concat(x: Seq<char>, y: Seq<char>, c: char)
    ensures
        split_spec(x + seq![c] + y, c) == split_spec(x, c) + split_spec(y, c),
    decreases y.len(),
{
    let s = x + seq![c] + y;
    if y.len() == 0 {
        assert(s == x.push(c));
        assert(s.drop_last() == x);
        assert(split_spec(s, c) =~= split_spec(x, c) + split_spec(y, c));
    } else {
        assert(s.drop_last() == x + seq![c] + y.drop_last());
        lemma_split_concat(x, y.drop_last(), c);
        lemma_split_no_sep(y.drop_last(), c);
        lemma_split_no_sep(x, c);
        let a = split_spec(x, c);
        let b = split_spec(y.drop_last(), c);
        if y.last() == c {
            assert(split_spec(s, c) =~= a + split_spec(y, c));
        } else {
            assert(split_spec(s, c) =~= a + split_spec(y, c));
        }
    }
}

/// A piece without the separator splits into itself.
pub proof fn lemma_split_single(y: Seq<char>, c: char)
    requires
        !y.contains(c),
    ensures
        split_spec(y, c) == seq![y],
    decreases y.len(),
{
    if y.len() > 0 {
        assert(!y.drop_last().contains(c)) by {
            if y.drop_last().contains(c) {
                let j = choose|j: int| 0 <= j < y.drop_last().len() && y.drop_last()[j] == c;
                assert(y[j] == c);
            }
        }
        lemma_split_single(y.drop_last(), c);
        assert(y.last() != c) by {
            assert(y[y.len() - 1] == y.last());
        }
        assert(y.drop_last().push(y.last()) == y);
        assert(split_spec(y, c) =~= seq![y]);
    } else {
        assert(y =~= Seq::<char>::empty());
    }
}

/// Splitting a join of pieces without the separator gives the pieces back.
pub proof fn lemma_split_join(v: Seq<Seq<char>>, c: char)
    requires
        v.len() >= 1,
        forall|i: int| 0 <= i < v.len() ==> !(#[trigger] v[i]).contains(c),
    ensures
        split_spec(join_spec(v, c), c) == v,
    decreases v.len(),
{
    if v.len() == 1 {
        lemma_split_single(v[0], c);
        assert(v =~= seq![v[0]]);
    } else {
        let d = v.drop_last();
        assert forall|i: int| 0 <= i < d.len() implies !(#[trigger] d[i]).contains(c) by {
            assert(d[i] == v[i]);
        }
        lemma_split_join(d, c);
        lemma_split_concat(join_spec(d, c), v.last(), c);
        lemma_split_single(v.last(), c);
        assert(d + seq![v.last()] =~= v);
    }
}

/// Names resolve to themselves.
pub proof fn lemma_resolve_names_id(v: Seq<Seq<char>>)
    requires
        all_names(v),
    ensures
        resolve(v) == Some(v),
    decreases v.len(),
{
    if v.len() > 0 {
        let d = v.drop_last();
        assert(all_names(d)) by {
            assert forall|i: int| 0 <= i < d.len() implies is_name(#[trigger] d[i]) by {
                assert(d[i] == v[i]);
            }
        }
        lemma_resolve_names_id(d);
        assert(is_name(v[v.len() - 1]));
        assert(d.push(v.last()) == v);
    }
}

/// An empty piece in front changes nothing.
pub proof fn lemma_resolve_empty_front(v: Seq<Seq<char>>)
    ensures
        resolve(seq![Seq::<char>::empty()] + v) == resolve(v),
    decreases v.len(),
{
    let e = seq![Seq::<char>::empty()];
    if v.len() == 0 {
        assert(e + v == e);
        assert(e.drop_last() =~= Seq::<Seq<char>>::empty());
        assert(resolve(e.drop_last()) == Some(Seq::<Seq<char>>::empty()));
        assert(e.last() =~= Seq::<char>::empty());
    } else {
        lemma_resolve_empty_front(v.drop_last());
        assert((e + v).drop_last() == e + v.drop_last());
        assert((e + v).last() == v.last());
    }
}

/// The first character of a join is that of its first piece.
pub proof fn lemma_join_first(v: Seq<Seq<char>>, c: char)
    requires
        v.len() >= 1,
        v[0].len() > 0,
    ensures
        join_spec(v, c).len() > 0,
        join_spec(v, c)[0] == v[0][0],
    decreases v.len(),
{
    if v.len() > 1 {
        let d = v.drop_last();
        assert(d[0] == v[0]);
        lemma_join_first(d, c);
    }
}

/// A normalized path holds names only.
pub proof fn lemma_normalize_wf(p: Seq<char>)
    ensures
        normalize(p) matches Some(n) ==> n.wf(),
{
    lemma_split_no_sep(p, sep());
    lemma_resolve_names(split_spec(p, sep()));
}

/// Normalizing a normalized path gives it back unchanged.
pub proof fn law_normalize_idempotent(p: Seq<char>)
    requires
        normalize(p) is Some,
    ensures
        normalize(normalize(p)->0.text()) == normalize(p),
{
    lemma_normalize_wf(p);
    lemma_normal_text(normalize(p)->0);
}

/// How many leading segments `a` and `b` share.
pub open spec fn common_len(a: Seq<Seq<char>>, b: Seq<Seq<char>>) -> nat
    decreases a.len(),
{
    if a.len() == 0 || b.len() == 0 || a[0] != b[0] {
        0
    } else {
        1 + common_len(a.drop_first(), b.drop_first())
    }
}

/// `n` copies of `..`.
pub open spec fn parent_dirs(n: nat) -> Seq<Seq<char>> {
    Seq::new(n, |i: int| seq!['.', '.'])
}

/// The path that leads from the directory `base` to `path`: one `..` for each
/// segment of `base` past what the two share, then the rest of `path`. A path
/// from the root is its own answer from a relative base; a relative path has
/// none from a base at the root.
pub open spec fn relative_path(path: NormPath, base: NormPath) -> Option<Seq<char>> {
    if path.absolute != base.absolute {
        if path.absolute {
            Some(path.text())
        } else {
            None
        }
    } else {
        let k = common_len(path.segments, base.segments);
        Some(
            join_spec(
                parent_dirs((base.segments.len() - k) as nat) + path.segments.subrange(
                    k as int,
                    path.segments.len() as int,
                ),
                sep(),
            ),
        )
    }
}

/// Whether `p` is a path in normal form: it normalizes to a path that is
/// written out as `p` again.
pub open spec fn is_normal_text(p: Seq<char>) -> bool {
    normalize(p) matches Some(n) && n.wf() && n.text() == p
}

/// Relies on `pathdiff::diff_paths`: on paths in normal form, the path from
/// the directory `base` to `path`.
#[verifier::external_body]
fn diff_paths(path: &str, base: &str) -> (r: Option<String>)
    requires
        is_normal_text(path@),
        is_normal_text(base@),
    ensures
        match relative_path(normalize(path@)->0, normalize(base@)->0) {
            None => r is None,
            Some(t) => r matches Some(s) && s@ == t,
        },
{
    pathdiff::diff_paths(path, base).and_then(|p| p.to_str().map(|s| s.to_string()))
}

impl NormalizedPath {
    /// The path that leads from the directory that holds `self` to `path`.
    pub fn relative_from_parent(&self, path: &NormalizedPath) -> (r: Option<String>)
        requires
            self@.wf(),
            path@.wf(),
        ensures
            match relative_path(path@, self@.parent()) {
                None => r is None,
                Some(t) => r matches Some(s) && s@ == t,
            },
    {
        let mut segs: Vec<String> = Vec::new();
        let mut i: usize = 0;
        let n = self.segments.len();
        let m: usize = if n == 0 { 0 } else { n - 1 };
        while i < m
            invariant
                m <= n == self.segments.len(),
                0 <= i <= m,
                segs@.map_values(|x: String| x@) == self@.segments.take(i as int),
            decreases m - i,
        {
            segs.push(self.segments[i].clone());
            proof {
                assert(self@.segments.take(i + 1) =~= self@.segments.take(i as int).push(self.segments@[i as int]@));
            }
            i = i + 1;
        }
        let base = NormalizedPath { absolute: self.absolute, segments: segs };
        proof {
            assert(base@ == self@.parent()) by {
                if n == 0 {
                    assert(self@.segments.take(0) =~= self@.segments);
                } else {
                    assert(self@.segments.take(m as int) =~= self@.segments.drop_last());
                }
            }
            assert(all_names(base@.segments)) by {
                assert forall|j: int| 0 <= j < base@.segments.len() implies is_name(#[trigger] base@.segments[j]) by {
                    assert(base@.segments[j] == self@.segments[j]);
                }
            }
        }
        let ps = path.to_path_string();
        let bs = base.to_path_string();
        proof {
            lemma_normal_text(path@);
            lemma_normal_text(base@);
        }
        diff_paths(ps.as_str(), bs.as_str())
    }
}

/// A well-formed normalized path is written in normal form.
pub proof fn lemma_normal_text(n: NormPath)
    requires
        n.wf(),
    ensures
        is_normal_text(n.text()),
        normalize(n.text()) == Some(n),
{
    let p = n.text();
    let c = sep();
    let v = n.segments;
    let j = join_spec(v, c);
    lemma_resolve_names_id(v);
    if v.len() >= 1 {
        assert forall|i: int| 0 <= i < v.len() implies !(#[trigger] v[i]).contains(c) by {
            assert(is_name(v[i]));
        }
        lemma_split_join(v, c);
        lemma_join_first(v, c);
    } else {
        assert(j == Seq::<char>::empty());
        assert(split_spec(j, c) == seq![Seq::<char>::empty()]);
        assert(seq![Seq::<char>::empty()] == seq![Seq::<char>::empty()] + v);
        lemma_resolve_empty_front(v);
    }
    if n.absolute {
        assert(p == Seq::<char>::empty() + seq![c] + j);
        lemma_split_concat(Seq::<char>::empty(), j, c);
        assert(split_spec(Seq::<char>::empty(), c) == seq![Seq::<char>::empty()]);
        lemma_resolve_empty_front(split_spec(j, c));
    } else if v.len() >= 1 {
        assert(!is_absolute_text(j)) by {
            assert(is_name(v[0]));
            if v[0][0] == c {
                assert(v[0].contains(c));
            }
        }
    }
}

/// The path reached by following the link `dest` from a chapter at `base`:
/// a link from the root is taken as it stands, any other is read from the
/// directory that holds `base`.
pub open spec fn resolve_link(base: NormPath, dest: Seq<char>) -> Option<NormPath> {
    if is_absolute_text(dest) {
        normalize(dest)
    } else {
        match resolve(base.parent().segments + split_spec(dest, sep())) {
            None => None,
            Some(s) => Some(NormPath { absolute: base.absolute, segments: s }),
        }
    }
}

impl NormalizedPath {
    /// Follows the link `dest` from a chapter at `self`.
    pub fn join_link(&self, dest: &str) -> (r: Result<NormalizedPath, PathError>)
        requires
            self@.wf(),
        ensures
            match resolve_link(self@, dest@) {
                None => r == Err::<NormalizedPath, PathError>(PathError::EscapesRoot),
                Some(n) => r matches Ok(v) && v@ == n && n.wf(),
            },
    {
        if starts_with_slash(dest) {
            return normalize_path(dest);
        }
        let pieces = split_slash(dest);
        let ghost tail = pieces@.map_values(|x: String| x@);
        let n = self.segments.len();
        let m: usize = if n == 0 { 0 } else { n - 1 };
        let mut segs: Vec<String> = Vec::new();
        let mut i: usize = 0;
        while i < m
            invariant
                m <= n == self.segments.len(),
                0 <= i <= m,
                segs@.map_values(|x: String| x@) == self@.segments.take(i as int),
            decreases m - i,
        {
            segs.push(self.segments[i].clone());
            proof {
                assert(self@.segments.take(i + 1) =~= self@.segments.take(i as int).push(self.segments@[i as int]@));
            }
            i = i + 1;
        }
        let mut k: usize = 0;
        while k < pieces.len()
            invariant
                0 <= k <= pieces.len(),
                tail == pieces@.map_values(|x: String| x@),
                segs@.map_values(|x: String| x@) == self@.segments.take(m as int) + tail.take(k as int),
            decreases pieces.len() - k,
        {
            segs.push(pieces[k].clone());
            proof {
                assert(tail.take(k + 1) =~= tail.take(k as int).push(tail[k as int]));
                assert(self@.segments.take(m as int) + tail.take(k + 1) =~= (self@.segments.take(m as int) + tail.take(k as int)).push(tail[k as int]));
            }
            k = k + 1;
        }
        let ghost all = segs@.map_values(|x: String| x@);
        proof {
            assert(tail.take(pieces.len() as int) =~= tail);
            if n == 0 {
                assert(self@.segments.take(0) =~= self@.segments);
            } else {
                assert(self@.segments.take(m as int) =~= self@.segments.drop_last());
            }
            assert(all == self@.parent().segments + split_spec(dest@, sep()));
            lemma_split_no_sep(dest@, sep());
            assert forall|j: int| 0 <= j < all.len() implies !(#[trigger] all[j]).contains(sep()) by {
                if j < self@.parent().segments.len() {
                    assert(is_name(self@.segments[j]));
                } else {
                    assert(all[j] == split_spec(dest@, sep())[j - self@.parent().segments.len()]);
                }
            }
            lemma_resolve_names(all);
        }
        match resolve_segments(&segs) {
            None => Err(PathError::EscapesRoot),
            Some(segments) => Ok(NormalizedPath { absolute: self.absolute, segments }),
        }
    }
}

} // verus!
