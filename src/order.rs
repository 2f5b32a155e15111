use vstd::prelude::*;

use std::cmp::Ordering;

verus! {

/// `o` seen from the other side.
pub open spec fn flip(o: Ordering) -> Ordering {
    match o {
        Ordering::Less => Ordering::Greater,
        Ordering::Equal => Ordering::Equal,
        Ordering::Greater => Ordering::Less,
    }
}

/// `o`, unless it is `Equal`: then `p`.
pub open spec fn then(o: Ordering, p: Ordering) -> Ordering {
    if o == Ordering::Equal {
        p
    } else {
        o
    }
}

/// Characters in the order of their code points.
pub open spec fn char_cmp(x: char, y: char) -> Ordering {
    if (x as u32) < (y as u32) {
        Ordering::Less
    } else if (x as u32) > (y as u32) {
        Ordering::Greater
    } else {
        Ordering::Equal
    }
}

pub proof fn lemma_char_cmp(x: char, y: char)
    ensures
        char_cmp(x, y) == Ordering::Equal <==> x == y,
        char_cmp(y, x) == flip(char_cmp(x, y)),
{
}

pub open spec fn u32_cmp(x: u32, y: u32) -> Ordering {
    if x < y {
        Ordering::Less
    } else if x > y {
        Ordering::Greater
    } else {
        Ordering::Equal
    }
}

pub proof fn lemma_u32_cmp(x: u32, y: u32)
    ensures
        u32_cmp(x, y) == Ordering::Equal <==> x == y,
        u32_cmp(y, x) == flip(u32_cmp(x, y)),
{
}

/// Text in dictionary order of code points; a proper prefix comes first.
pub open spec fn text_cmp(a: Seq<char>, b: Seq<char>) -> Ordering
    decreases a.len(),
{
    if a.len() == 0 {
        if b.len() == 0 {
            Ordering::Equal
        } else {
            Ordering::Less
        }
    } else if b.len() == 0 {
        Ordering::Greater
    } else if char_cmp(a[0], b[0]) != Ordering::Equal {
        char_cmp(a[0], b[0])
    } else {
        text_cmp(a.drop_first(), b.drop_first())
    }
}

/// `text_cmp` is `Equal` exactly on equal lists, and swapping its arguments
/// flips it.
pub proof fn lemma_text_cmp(a: Seq<char>, b: Seq<char>)
    ensures
        text_cmp(a, b) == Ordering::Equal <==> a == b,
        text_cmp(b, a) == flip(text_cmp(a, b)),
    decreases a.len(),
{
    if a.len() > 0 && b.len() > 0 {
        lemma_text_cmp(a.drop_first(), b.drop_first());
        lemma_char_cmp(a[0], b[0]);
        if a.drop_first() == b.drop_first() && a[0] == b[0] {
            assert forall|i: int| 0 <= i < a.len() implies a[i] == b[i] by {
                if i > 0 {
                    assert(a[i] == a.drop_first()[i - 1]);
                    assert(b[i] == b.drop_first()[i - 1]);
                }
            }
            assert(a =~= b);
        }
        if a == b {
            lemma_char_cmp(a[0], a[0]);
        }
    } else if a.len() == 0 && b.len() == 0 {
        assert(a =~= b);
    }
}

/// Section numbers in dictionary order: `[1]` before `[1, 1]` before `[2]`.
pub open spec fn number_cmp(a: Seq<u32>, b: Seq<u32>) -> Ordering
    decreases a.len(),
{
    if a.len() == 0 {
        if b.len() == 0 {
            Ordering::Equal
        } else {
            Ordering::Less
        }
    } else if b.len() == 0 {
        Ordering::Greater
    } else if u32_cmp(a[0], b[0]) != Ordering::Equal {
        u32_cmp(a[0], b[0])
    } else {
        number_cmp(a.drop_first(), b.drop_first())
    }
}

/// `number_cmp` is `Equal` exactly on equal lists, and swapping its arguments
/// flips it.
pub proof fn lemma_number_cmp(a: Seq<u32>, b: Seq<u32>)
    ensures
        number_cmp(a, b) == Ordering::Equal <==> a == b,
        number_cmp(b, a) == flip(number_cmp(a, b)),
    decreases a.len(),
{
    if a.len() > 0 && b.len() > 0 {
        lemma_number_cmp(a.drop_first(), b.drop_first());
        lemma_u32_cmp(a[0], b[0]);
        if a.drop_first() == b.drop_first() && a[0] == b[0] {
            assert forall|i: int| 0 <= i < a.len() implies a[i] == b[i] by {
                if i > 0 {
                    assert(a[i] == a.drop_first()[i - 1]);
                    assert(b[i] == b.drop_first()[i - 1]);
                }
            }
            assert(a =~= b);
        }
        if a == b {
            lemma_u32_cmp(a[0], a[0]);
        }
    } else if a.len() == 0 && b.len() == 0 {
        assert(a =~= b);
    }
}

/// Lists of segments in dictionary order, each segment compared as text.
pub open spec fn segments_cmp(a: Seq<Seq<char>>, b: Seq<Seq<char>>) -> Ordering
    decreases a.len(),
{
    if a.len() == 0 {
        if b.len() == 0 {
            Ordering::Equal
        } else {
            Ordering::Less
        }
    } else if b.len() == 0 {
        Ordering::Greater
    } else if text_cmp(a[0], b[0]) != Ordering::Equal {
        text_cmp(a[0], b[0])
    } else {
        segments_cmp(a.drop_first(), b.drop_first())
    }
}

/// `segments_cmp` is `Equal` exactly on equal lists, and swapping its arguments
/// flips it.
pub proof fn lemma_segments_cmp(a: Seq<Seq<char>>, b: Seq<Seq<char>>)
    ensures
        segments_cmp(a, b) == Ordering::Equal <==> a == b,
        segments_cmp(b, a) == flip(segments_cmp(a, b)),
    decreases a.len(),
{
    if a.len() > 0 && b.len() > 0 {
        lemma_segments_cmp(a.drop_first(), b.drop_first());
        lemma_text_cmp(a[0], b[0]);
        if a.drop_first() == b.drop_first() && a[0] == b[0] {
            assert forall|i: int| 0 <= i < a.len() implies a[i] == b[i] by {
                if i > 0 {
                    assert(a[i] == a.drop_first()[i - 1]);
                    assert(b[i] == b.drop_first()[i - 1]);
                }
            }
            assert(a =~= b);
        }
        if a == b {
            lemma_text_cmp(a[0], a[0]);
        }
    } else if a.len() == 0 && b.len() == 0 {
        assert(a =~= b);
    }
}


/// `text_cmp` is transitive on `Less`.
pub proof fn lemma_text_cmp_trans(a: Seq<char>, b: Seq<char>, c: Seq<char>)
    ensures
        text_cmp(a, b) == Ordering::Less && text_cmp(b, c) == Ordering::Less ==> text_cmp(a, c) == Ordering::Less,
    decreases a.len(),
{
    if a.len() > 0 && b.len() > 0 && c.len() > 0 {
        lemma_text_cmp_trans(a.drop_first(), b.drop_first(), c.drop_first());
        lemma_char_cmp(a[0], b[0]);
        lemma_char_cmp(b[0], c[0]);
    }
}

/// `number_cmp` is transitive on `Less`.
pub proof fn lemma_number_cmp_trans(a: Seq<u32>, b: Seq<u32>, c: Seq<u32>)
    ensures
        number_cmp(a, b) == Ordering::Less && number_cmp(b, c) == Ordering::Less ==> number_cmp(a, c) == Ordering::Less,
    decreases a.len(),
{
    if a.len() > 0 && b.len() > 0 && c.len() > 0 {
        lemma_number_cmp_trans(a.drop_first(), b.drop_first(), c.drop_first());
        lemma_u32_cmp(a[0], b[0]);
        lemma_u32_cmp(b[0], c[0]);
    }
}

/// `segments_cmp` is transitive on `Less`.
pub proof fn lemma_segments_cmp_trans(a: Seq<Seq<char>>, b: Seq<Seq<char>>, c: Seq<Seq<char>>)
    ensures
        segments_cmp(a, b) == Ordering::Less && segments_cmp(b, c) == Ordering::Less ==> segments_cmp(a, c) == Ordering::Less,
    decreases a.len(),
{
    if a.len() > 0 && b.len() > 0 && c.len() > 0 {
        lemma_segments_cmp_trans(a.drop_first(), b.drop_first(), c.drop_first());
        lemma_text_cmp(a[0], b[0]);
        lemma_text_cmp(b[0], c[0]);
        lemma_text_cmp(a[0], c[0]);
        lemma_text_cmp_trans(a[0], b[0], c[0]);
    }
}

/// Relies on `str::cmp`: strings are ordered by their UTF-8 bytes, which is
/// the dictionary order of their code points.
#[verifier::external_body]
pub(crate) fn cmp_text(a: &str, b: &str) -> (r: Ordering)
    ensures
        r == text_cmp(a@, b@),
{
    a.cmp(b)
}

/// Compares two section numbers.
pub fn cmp_numbers(a: &Vec<u32>, b: &Vec<u32>) -> (r: Ordering)
    ensures
        r == number_cmp(a@, b@),
{
    let mut i: usize = 0;
    proof {
        assert(a@.skip(0) =~= a@);
        assert(b@.skip(0) =~= b@);
    }
    while i < a.len() && i < b.len()
        invariant
            0 <= i <= a.len(),
            i <= b.len(),
            number_cmp(a@, b@) == number_cmp(a@.skip(i as int), b@.skip(i as int)),
        decreases a.len() - i,
    {
        proof {
            assert(a@.skip(i as int)[0] == a@[i as int]);
            assert(b@.skip(i as int)[0] == b@[i as int]);
            assert(a@.skip(i as int).drop_first() =~= a@.skip(i + 1));
            assert(b@.skip(i as int).drop_first() =~= b@.skip(i + 1));
        }
        if a[i] < b[i] {
            return Ordering::Less;
        } else if a[i] > b[i] {
            return Ordering::Greater;
        }
        i = i + 1;
    }
    if i < b.len() {
        Ordering::Less
    } else if i < a.len() {
        Ordering::Greater
    } else {
        Ordering::Equal
    }
}

/// Compares two lists of segments.
pub fn cmp_segments(a: &Vec<String>, b: &Vec<String>) -> (r: Ordering)
    ensures
        r == segments_cmp(a@.map_values(|s: String| s@), b@.map_values(|s: String| s@)),
{
    let ghost av = a@.map_values(|s: String| s@);
    let ghost bv = b@.map_values(|s: String| s@);
    let mut i: usize = 0;
    proof {
        assert(av.skip(0) =~= av);
        assert(bv.skip(0) =~= bv);
    }
    while i < a.len() && i < b.len()
        invariant
            0 <= i <= a.len(),
            i <= b.len(),
            av == a@.map_values(|s: String| s@),
            bv == b@.map_values(|s: String| s@),
            segments_cmp(av, bv) == segments_cmp(av.skip(i as int), bv.skip(i as int)),
        decreases a.len() - i,
    {
        proof {
            assert(av.skip(i as int)[0] == a@[i as int]@);
            assert(bv.skip(i as int)[0] == b@[i as int]@);
            assert(av.skip(i as int).drop_first() =~= av.skip(i + 1));
            assert(bv.skip(i as int).drop_first() =~= bv.skip(i + 1));
        }
        let c = cmp_text(a[i].as_str(), b[i].as_str());
        match c {
            Ordering::Equal => {},
            _ => {
                return c;
            },
        }
        i = i + 1;
    }
    if i < b.len() {
        Ordering::Less
    } else if i < a.len() {
        Ordering::Greater
    } else {
        Ordering::Equal
    }
}

} // verus!
