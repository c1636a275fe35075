//! Searching byte strings.

use vstd::prelude::*;
use vstd::slice::slice_subrange;

verus! {

/// `<`
pub const LT: u8 = 0x3c;

/// `>`
pub const GT: u8 = 0x3e;

/// `/`
pub const SLASH: u8 = 0x2f;

/// `!`
pub const BANG: u8 = 0x21;

/// `?`
pub const QUESTION: u8 = 0x3f;

/// `"`
pub const DOUBLE_QUOTE: u8 = 0x22;

/// `'`
pub const SINGLE_QUOTE: u8 = 0x27;

/// `=`
pub const EQUALS: u8 = 0x3d;

/// `&`
pub const AMPERSAND: u8 = 0x26;

/// Space.
pub const SPACE: u8 = 0x20;

/// Horizontal tab.
pub const TAB: u8 = 0x09;

/// Line feed.
pub const LINE_FEED: u8 = 0x0a;

/// Form feed.
pub const FORM_FEED: u8 = 0x0c;

/// Carriage return.
pub const CARRIAGE_RETURN: u8 = 0x0d;

/// The white space of XML: space, tab, carriage return and line feed.
pub open spec fn is_space(b: u8) -> bool {
    b == SPACE || b == TAB || b == CARRIAGE_RETURN || b == LINE_FEED
}

/// `needle` stands in `hay` at offset `at`.
pub open spec fn occurs_at(hay: Seq<u8>, needle: Seq<u8>, at: int) -> bool {
    0 <= at && at + needle.len() <= hay.len() && hay.subrange(at, at + needle.len()) == needle
}

/// The first offset in `from..to` at which `hit` holds.
pub open spec fn first_where(from: int, to: int, hit: spec_fn(int) -> bool) -> Option<int>
    decreases to - from,
{
    if from >= to {
        None
    } else if hit(from) {
        Some(from)
    } else {
        first_where(from + 1, to, hit)
    }
}

/// `at` is the first offset in `from..to` at which `hit` holds, or there is none.
pub open spec fn is_first_where(
    from: int,
    to: int,
    hit: spec_fn(int) -> bool,
    at: Option<int>,
) -> bool {
    match at {
        Some(i) => from <= i < to && hit(i) && forall|j: int| from <= j < i ==> !#[trigger] hit(j),
        None => forall|j: int| from <= j < to ==> !#[trigger] hit(j),
    }
}

/// `first_where` is an answer that `is_first_where` accepts.
pub proof fn lemma_first_where(from: int, to: int, hit: spec_fn(int) -> bool)
    ensures
        is_first_where(from, to, hit, first_where(from, to, hit)),
    decreases to - from,
{
    if from < to && !hit(from) {
        lemma_first_where(from + 1, to, hit);
        assert forall|j: int|
            from <= j < (match first_where(from, to, hit) {
                Some(i) => i,
                None => to,
            }) implies !#[trigger] hit(j) by {
            if j > from {
                assert(from + 1 <= j);
            }
        }
    }
}

/// `first_where` is the only answer that `is_first_where` accepts.
pub proof fn lemma_first_where_is(
    from: int,
    to: int,
    hit: spec_fn(int) -> bool,
    at: Option<int>,
)
    requires
        is_first_where(from, to, hit, at),
    ensures
        first_where(from, to, hit) == at,
{
    lemma_first_where(from, to, hit);
    match (first_where(from, to, hit), at) {
        (Some(a), Some(b)) => {
            assert(hit(a) && hit(b));
        },
        (Some(a), None) => {
            assert(hit(a));
        },
        (None, Some(b)) => {
            assert(hit(b));
        },
        _ => {},
    }
}

/// The offsets at which `s` holds the byte `b`.
pub open spec fn holds_byte(s: Seq<u8>, b: u8) -> spec_fn(int) -> bool {
    |i: int| s[i] == b
}

/// The first offset at or after `from` that holds the byte `b`.
pub open spec fn byte_from(s: Seq<u8>, b: u8, from: int) -> Option<int> {
    first_where(from, s.len() as int, holds_byte(s, b))
}

/// The offsets at which `needle` occurs in `s`.
pub open spec fn holds_bytes(s: Seq<u8>, needle: Seq<u8>) -> spec_fn(int) -> bool {
    |i: int| occurs_at(s, needle, i)
}

/// The first offset at or after `from` at which `needle` occurs in `s`.
pub open spec fn bytes_from(s: Seq<u8>, needle: Seq<u8>, from: int) -> Option<int> {
    first_where(from, s.len() as int + 1, holds_bytes(s, needle))
}

/// How often `needle` occurs in `s` from `from` on, counted from the left without overlap.
pub open spec fn occurrences(s: Seq<u8>, needle: Seq<u8>, from: int) -> nat
    decreases s.len() - from,
{
    if needle.len() == 0 || from < 0 {
        0
    } else {
        match bytes_from(s, needle, from) {
            Some(at) => if from <= at && at + needle.len() <= s.len() {
                1 + occurrences(s, needle, at + needle.len())
            } else {
                0
            },
            None => 0,
        }
    }
}

/// An offset as a mathematical integer.
pub open spec fn offset(at: Option<usize>) -> Option<int> {
    match at {
        Some(i) => Some(i as int),
        None => None,
    }
}

pub proof fn lemma_byte_from(s: Seq<u8>, b: u8, from: int)
    ensures
        match byte_from(s, b, from) {
            Some(i) => from <= i < s.len() && s[i] == b && forall|j: int|
                from <= j < i ==> s[j] != b,
            None => forall|j: int| from <= j < s.len() ==> s[j] != b,
        },
{
    let hit = holds_byte(s, b);
    lemma_first_where(from, s.len() as int, hit);
    let end: int = match byte_from(s, b, from) {
        Some(i) => i,
        None => s.len() as int,
    };
    assert forall|j: int| from <= j < end implies s[j] != b by {
        assert(!hit(j));
    }
}

pub proof fn lemma_bytes_from(s: Seq<u8>, needle: Seq<u8>, from: int)
    ensures
        match bytes_from(s, needle, from) {
            Some(i) => from <= i && occurs_at(s, needle, i) && forall|j: int|
                from <= j < i ==> !occurs_at(s, needle, j),
            None => forall|j: int| from <= j ==> !occurs_at(s, needle, j),
        },
{
    let hit = holds_bytes(s, needle);
    lemma_first_where(from, s.len() as int + 1, hit);
    match bytes_from(s, needle, from) {
        Some(i) => {
            assert forall|j: int| from <= j < i implies !occurs_at(s, needle, j) by {
                assert(!hit(j));
            }
        },
        None => {
            assert forall|j: int| from <= j implies !occurs_at(s, needle, j) by {
                if j <= s.len() {
                    assert(!hit(j));
                }
            }
        },
    }
}

/// An occurrence in the tail of `s` that starts at `from` is one in `s`.
pub proof fn lemma_occurs_in_tail(s: Seq<u8>, needle: Seq<u8>, from: int, at: int)
    requires
        0 <= from <= s.len(),
        from <= at,
    ensures
        occurs_at(s.subrange(from, s.len() as int), needle, at - from) == occurs_at(s, needle, at),
{
    let tail = s.subrange(from, s.len() as int);
    if at + needle.len() <= s.len() {
        assert(tail.subrange(at - from, at - from + needle.len()) =~= s.subrange(
            at,
            at + needle.len(),
        ));
    }
}

/// `memchr::memchr` returns the offset of the first byte equal to `needle`, if there is one.
pub assume_specification[ memchr::memchr ](needle: u8, haystack: &[u8]) -> (at: Option<usize>)
    ensures
        match at {
            Some(i) => i < haystack@.len() && haystack@[i as int] == needle && forall|j: int|
                0 <= j < i ==> haystack@[j] != needle,
            None => forall|j: int| 0 <= j < haystack@.len() ==> haystack@[j] != needle,
        },
;

/// `memchr::memchr3` returns the offset of the first byte equal to one of the three needles,
/// if there is one.
pub assume_specification[ memchr::memchr3 ](
    needle1: u8,
    needle2: u8,
    needle3: u8,
    haystack: &[u8],
) -> (at: Option<usize>)
    ensures
        match at {
            Some(i) => i < haystack@.len() && (haystack@[i as int] == needle1
                || haystack@[i as int] == needle2 || haystack@[i as int] == needle3)
                && forall|j: int|
                0 <= j < i ==> haystack@[j] != needle1 && haystack@[j] != needle2 && haystack@[j]
                    != needle3,
            None => forall|j: int|
                0 <= j < haystack@.len() ==> haystack@[j] != needle1 && haystack@[j] != needle2
                    && haystack@[j] != needle3,
        },
;

/// `memchr::memmem::find` returns the offset of the first occurrence of `needle`, if there is
/// one; an empty needle occurs at offset zero.
pub assume_specification[ memchr::memmem::find ](haystack: &[u8], needle: &[u8]) -> (at: Option<
    usize,
>)
    ensures
        match at {
            Some(i) => occurs_at(haystack@, needle@, i as int) && forall|j: int|
                0 <= j < i ==> !occurs_at(haystack@, needle@, j),
            None => forall|j: int| !occurs_at(haystack@, needle@, j),
        },
;

/// Offset of the first byte `needle` at or after `from`.
pub fn find_byte(bytes: &[u8], needle: u8, from: usize) -> (at: Option<usize>)
    requires
        from <= bytes@.len(),
    ensures
        offset(at) == byte_from(bytes@, needle, from as int),
        at matches Some(i) ==> from <= i < bytes@.len() && bytes@[i as int] == needle,
{
    let tail = slice_subrange(bytes, from, bytes.len());
    let found = memchr::memchr(needle, tail);
    proof {
        let hit = holds_byte(bytes@, needle);
        let at: Option<int> = match found {
            Some(rel) => Some(from + rel),
            None => None,
        };
        assert forall|j: int|
            from <= j < (match at {
                Some(i) => i,
                None => bytes@.len() as int,
            }) implies !#[trigger] hit(j) by {
            assert(tail@[j - from] == bytes@[j]);
        }
        lemma_first_where_is(from as int, bytes@.len() as int, hit, at);
    }
    match found {
        Some(rel) => Some(from + rel),
        None => None,
    }
}

/// Offset of the first occurrence of `needle` at or after `from`.
pub fn find_bytes(bytes: &[u8], needle: &[u8], from: usize) -> (at: Option<usize>)
    requires
        from <= bytes@.len(),
    ensures
        offset(at) == bytes_from(bytes@, needle@, from as int),
        at matches Some(i) ==> from <= i && i + needle@.len() <= bytes@.len() && occurs_at(
            bytes@,
            needle@,
            i as int,
        ),
{
    let tail = slice_subrange(bytes, from, bytes.len());
    let found = memchr::memmem::find(tail, needle);
    proof {
        let hit = holds_bytes(bytes@, needle@);
        let at: Option<int> = match found {
            Some(rel) => Some(from + rel),
            None => None,
        };
        assert forall|j: int|
            from <= j < (match at {
                Some(i) => i,
                None => bytes@.len() as int + 1,
            }) implies !#[trigger] hit(j) by {
            lemma_occurs_in_tail(bytes@, needle@, from as int, j);
        }
        if let Some(rel) = found {
            lemma_occurs_in_tail(bytes@, needle@, from as int, from + rel);
        }
        lemma_first_where_is(from as int, bytes@.len() as int + 1, hit, at);
    }
    match found {
        Some(rel) => Some(from + rel),
        None => None,
    }
}

/// Whether `needle` stands in `bytes` at offset `at`.
pub fn starts_with_at(bytes: &[u8], needle: &[u8], at: usize) -> (yes: bool)
    ensures
        yes == occurs_at(bytes@, needle@, at as int),
{
    let len: usize = bytes.len();
    if at > len || needle.len() > len - at {
        return false;
    }
    let mut i: usize = 0;
    while i < needle.len()
        invariant
            i <= needle@.len(),
            at + needle@.len() <= bytes@.len(),
            len == bytes@.len(),
            forall|j: int| 0 <= j < i ==> bytes@[at + j] == needle@[j],
        decreases needle@.len() - i,
    {
        if bytes[at + i] != needle[i] {
            assert(bytes@.subrange(at as int, at + needle@.len())[i as int] != needle@[i as int]);
            return false;
        }
        i += 1;
    }
    assert(bytes@.subrange(at as int, at + needle@.len()) =~= needle@);
    true
}

/// Whether two byte strings are the same.
pub fn same_bytes(a: &[u8], b: &[u8]) -> (yes: bool)
    ensures
        yes == (a@ == b@),
{
    let yes = a.len() == b.len() && starts_with_at(a, b, 0);
    assert(a@.subrange(0, a@.len() as int) =~= a@);
    yes
}

/// How often `needle` occurs in `bytes`, counted from the left without overlap.
pub fn count_matches(bytes: &[u8], needle: &[u8]) -> (count: usize)
    requires
        needle@.len() > 0,
    ensures
        count == occurrences(bytes@, needle@, 0),
        count <= bytes@.len(),
{
    let len: usize = bytes.len();
    let mut count: usize = 0;
    let mut pos: usize = 0;
    loop
        invariant
            len == bytes@.len(),
            needle@.len() > 0,
            pos <= bytes@.len(),
            count <= pos,
            count + occurrences(bytes@, needle@, pos as int) == occurrences(bytes@, needle@, 0),
        decreases bytes@.len() - pos,
    {
        match find_bytes(bytes, needle, pos) {
            Some(at) => {
                count += 1;
                pos = at + needle.len();
            },
            None => {
                return count;
            },
        }
    }
}

} // verus!
