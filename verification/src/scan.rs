//! Search for the first of a few bytes in a byte string.

use vstd::prelude::*;
use vstd::slice::slice_subrange;

verus! {

/// The index of the first byte of `s`, at or after `from`, that equals `a`,
/// `b` or `c`; the length of `s` if there is none.
pub open spec fn find3(s: Seq<u8>, from: int, a: u8, b: u8, c: u8) -> int
    decreases s.len() - from,
{
    if from >= s.len() {
        s.len() as int
    } else if s[from] == a || s[from] == b || s[from] == c {
        from
    } else {
        find3(s, from + 1, a, b, c)
    }
}

/// The index of the first byte of `s`, at or after `from`, that equals `a` or
/// `b`; the length of `s` if there is none.
pub open spec fn find2(s: Seq<u8>, from: int, a: u8, b: u8) -> int {
    find3(s, from, a, b, b)
}

/// The index of the first byte of `s`, at or after `from`, that equals `a`;
/// the length of `s` if there is none.
pub open spec fn find1(s: Seq<u8>, from: int, a: u8) -> int {
    find3(s, from, a, a, a)
}

/// `find3` returns a place between `from` and the end, with no match before
/// it and a match at it unless it is the end.
pub proof fn lemma_find3(s: Seq<u8>, from: int, a: u8, b: u8, c: u8)
    requires
        0 <= from <= s.len(),
    ensures
        from <= find3(s, from, a, b, c) <= s.len(),
        forall|j: int|
            from <= j < find3(s, from, a, b, c) ==> #[trigger] s[j] != a && s[j] != b && s[j] != c,
        find3(s, from, a, b, c) < s.len() ==> {
            let x = s[find3(s, from, a, b, c)];
            x == a || x == b || x == c
        },
    decreases s.len() - from,
{
    if from < s.len() && !(s[from] == a || s[from] == b || s[from] == c) {
        lemma_find3(s, from + 1, a, b, c);
    }
}

/// A place with no match between `from` and it, and with a match at it or at
/// the end of `s`, is the place that `find3` returns.
pub proof fn lemma_find3_is(s: Seq<u8>, from: int, a: u8, b: u8, c: u8, at: int)
    requires
        0 <= from <= at <= s.len(),
        forall|j: int| from <= j < at ==> #[trigger] s[j] != a && s[j] != b && s[j] != c,
        at < s.len() ==> s[at] == a || s[at] == b || s[at] == c,
    ensures
        find3(s, from, a, b, c) == at,
    decreases at - from,
{
    if from < at {
        lemma_find3_is(s, from + 1, a, b, c, at);
    }
}

/// In `pre + mid + post`, where `mid` holds none of the three bytes and
/// `post` starts with one of them, the search from the start of `mid` ends at
/// the start of `post`.
pub proof fn lemma_find3_across(
    pre: Seq<u8>,
    mid: Seq<u8>,
    post: Seq<u8>,
    a: u8,
    b: u8,
    c: u8,
)
    requires
        forall|j: int| 0 <= j < mid.len() ==> #[trigger] mid[j] != a && mid[j] != b && mid[j] != c,
        post.len() > 0,
        post[0] == a || post[0] == b || post[0] == c,
    ensures
        find3(pre + mid + post, pre.len() as int, a, b, c) == pre.len() + mid.len(),
        (pre + mid + post).subrange(pre.len() as int, pre.len() + mid.len() as int) == mid,
{
    let s = pre + mid + post;
    let from = pre.len() as int;
    let at = pre.len() as int + mid.len();
    assert forall|j: int| from <= j < at implies #[trigger] s[j] != a && s[j] != b && s[j] != c by {
        assert(s[j] == mid[j - from]);
    }
    assert(s[at] == post[0]);
    lemma_find3_is(s, from, a, b, c, at);
    assert(s.subrange(from, at) =~= mid);
}

/// `memchr::memchr`: the index of the first byte of `haystack` that equals
/// `needle`, or `None` if no byte does.
pub assume_specification[ memchr::memchr ](needle: u8, haystack: &[u8]) -> (r: Option<usize>)
    ensures
        match r {
            Some(i) => i < haystack@.len() && haystack@[i as int] == needle && forall|j: int|
                0 <= j < i ==> #[trigger] haystack@[j] != needle,
            None => forall|j: int| 0 <= j < haystack@.len() ==> #[trigger] haystack@[j] != needle,
        },
;

/// `memchr::memchr2`: the index of the first byte of `haystack` that equals
/// one of the two needles, or `None` if no byte does.
pub assume_specification[ memchr::memchr2 ](needle1: u8, needle2: u8, haystack: &[u8]) -> (r:
    Option<usize>)
    ensures
        match r {
            Some(i) => i < haystack@.len() && (haystack@[i as int] == needle1 || haystack@[i as int]
                == needle2) && forall|j: int|
                0 <= j < i ==> #[trigger] haystack@[j] != needle1 && haystack@[j] != needle2,
            None => forall|j: int|
                0 <= j < haystack@.len() ==> #[trigger] haystack@[j] != needle1 && haystack@[j]
                    != needle2,
        },
;

/// `memchr::memchr3`: the index of the first byte of `haystack` that equals
/// one of the three needles, or `None` if no byte does.
pub assume_specification[ memchr::memchr3 ](
    needle1: u8,
    needle2: u8,
    needle3: u8,
    haystack: &[u8],
) -> (r: Option<usize>)
    ensures
        match r {
            Some(i) => i < haystack@.len() && (haystack@[i as int] == needle1 || haystack@[i as int]
                == needle2 || haystack@[i as int] == needle3) && forall|j: int|
                0 <= j < i ==> #[trigger] haystack@[j] != needle1 && haystack@[j] != needle2
                    && haystack@[j] != needle3,
            None => forall|j: int|
                0 <= j < haystack@.len() ==> #[trigger] haystack@[j] != needle1 && haystack@[j]
                    != needle2 && haystack@[j] != needle3,
        },
;

/// Finds the first byte of `bytes`, at or after `from`, that equals `a`, `b`
/// or `c`, and returns its index, or the length of `bytes` if there is none.
pub fn seek3(bytes: &[u8], from: usize, a: u8, b: u8, c: u8) -> (r: usize)
    ensures
        r == find3(bytes@, from as int, a, b, c),
        from <= bytes@.len() ==> from <= r <= bytes@.len(),
{
    if from >= bytes.len() {
        return bytes.len();
    }
    let rest = slice_subrange(bytes, from, bytes.len());
    match memchr::memchr3(a, b, c, rest) {
        Some(i) => {
            proof {
                assert forall|j: int| from <= j < from + i implies #[trigger] bytes@[j] != a
                    && bytes@[j] != b && bytes@[j] != c by {
                    assert(rest@[j - from] == bytes@[j]);
                }
                lemma_find3_is(bytes@, from as int, a, b, c, from + i);
            }
            from + i
        },
        None => {
            proof {
                assert forall|j: int| from <= j < bytes@.len() implies #[trigger] bytes@[j] != a
                    && bytes@[j] != b && bytes@[j] != c by {
                    assert(rest@[j - from] == bytes@[j]);
                }
                lemma_find3_is(bytes@, from as int, a, b, c, bytes@.len() as int);
            }
            bytes.len()
        },
    }
}

/// Finds the first byte of `bytes`, at or after `from`, that equals `a` or
/// `b`, and returns its index, or the length of `bytes` if there is none.
pub fn seek2(bytes: &[u8], from: usize, a: u8, b: u8) -> (r: usize)
    ensures
        r == find2(bytes@, from as int, a, b),
        from <= bytes@.len() ==> from <= r <= bytes@.len(),
{
    if from >= bytes.len() {
        return bytes.len();
    }
    let rest = slice_subrange(bytes, from, bytes.len());
    match memchr::memchr2(a, b, rest) {
        Some(i) => {
            proof {
                assert forall|j: int| from <= j < from + i implies #[trigger] bytes@[j] != a
                    && bytes@[j] != b by {
                    assert(rest@[j - from] == bytes@[j]);
                }
                lemma_find3_is(bytes@, from as int, a, b, b, from + i);
            }
            from + i
        },
        None => {
            proof {
                assert forall|j: int| from <= j < bytes@.len() implies #[trigger] bytes@[j] != a
                    && bytes@[j] != b by {
                    assert(rest@[j - from] == bytes@[j]);
                }
                lemma_find3_is(bytes@, from as int, a, b, b, bytes@.len() as int);
            }
            bytes.len()
        },
    }
}

/// Finds the first byte of `bytes`, at or after `from`, that equals `a`, and
/// returns its index, or the length of `bytes` if there is none.
pub fn seek1(bytes: &[u8], from: usize, a: u8) -> (r: usize)
    ensures
        r == find1(bytes@, from as int, a),
        from <= bytes@.len() ==> from <= r <= bytes@.len(),
{
    if from >= bytes.len() {
        return bytes.len();
    }
    let rest = slice_subrange(bytes, from, bytes.len());
    match memchr::memchr(a, rest) {
        Some(i) => {
            proof {
                assert forall|j: int| from <= j < from + i implies #[trigger] bytes@[j] != a by {
                    assert(rest@[j - from] == bytes@[j]);
                }
                lemma_find3_is(bytes@, from as int, a, a, a, from + i);
            }
            from + i
        },
        None => {
            proof {
                assert forall|j: int| from <= j < bytes@.len() implies #[trigger] bytes@[j]
                    != a by {
                    assert(rest@[j - from] == bytes@[j]);
                }
                lemma_find3_is(bytes@, from as int, a, a, a, bytes@.len() as int);
            }
            bytes.len()
        },
    }
}

} // verus!
