//! Byte classes of the PDF syntax and searching in byte sequences.
use vstd::prelude::*;
use vstd::string::*;

verus! {

pub const LF: u8 = 10;

pub const CR: u8 = 13;

pub const HASH: u8 = 0x23;

pub const PERCENT: u8 = 0x25;

pub const LPAREN: u8 = 0x28;

pub const RPAREN: u8 = 0x29;

pub const PLUS: u8 = 0x2b;

pub const MINUS: u8 = 0x2d;

pub const DOT: u8 = 0x2e;

pub const SLASH: u8 = 0x2f;

pub const LT: u8 = 0x3c;

pub const GT: u8 = 0x3e;

pub const LBRACKET: u8 = 0x5b;

pub const BACKSLASH: u8 = 0x5c;

pub const RBRACKET: u8 = 0x5d;

/// The bytes of an ASCII string literal.
pub open spec fn ascii(s: &str) -> Seq<u8> {
    s.spec_bytes()
}

/// An optional machine integer as an optional mathematical integer.
pub open spec fn as_int(o: Option<usize>) -> Option<int> {
    match o {
        Some(n) => Some(n as int),
        None => None,
    }
}

/// The bytes of an optional byte vector.
pub open spec fn opt_bytes(o: Option<Vec<u8>>) -> Option<Seq<u8>> {
    match o {
        Some(v) => Some(v@),
        None => None,
    }
}

/// White space of the PDF syntax: NUL, TAB, LF, FF, CR and SPACE.
#[verifier::allow_in_spec]
pub fn is_whitespace(b: u8) -> bool
    returns
        (b == 0 || b == 9 || b == 10 || b == 12 || b == 13 || b == 32),
{
    b == 0 || b == 9 || b == 10 || b == 12 || b == 13 || b == 32
}

/// End-of-line bytes: LF and CR.
#[verifier::allow_in_spec]
pub fn is_eol(b: u8) -> bool
    returns
        (b == 10 || b == 13),
{
    b == 10 || b == 13
}

/// Delimiters of the PDF syntax: `( ) < > [ ] { } / %`.
#[verifier::allow_in_spec]
pub fn is_delimiter(b: u8) -> bool
    returns
        (b == 0x28 || b == 0x29 || b == 0x3c || b == 0x3e || b == 0x5b || b == 0x5d || b == 0x7b
            || b == 0x7d || b == 0x2f || b == 0x25),
{
    b == 0x28 || b == 0x29 || b == 0x3c || b == 0x3e || b == 0x5b || b == 0x5d || b == 0x7b
        || b == 0x7d || b == 0x2f || b == 0x25
}

/// A regular byte is neither white space nor a delimiter.
#[verifier::allow_in_spec]
pub fn is_regular(b: u8) -> bool
    returns
        (!is_whitespace(b) && !is_delimiter(b)),
{
    !is_whitespace(b) && !is_delimiter(b)
}

/// The decimal digits `0` to `9`.
#[verifier::allow_in_spec]
pub fn is_digit(b: u8) -> bool
    returns
        (0x30 <= b && b <= 0x39),
{
    0x30 <= b && b <= 0x39
}

/// The value of a hexadecimal digit, in either case.
pub open spec fn hex_value(b: u8) -> Option<u8> {
    if 0x30 <= b && b <= 0x39 {
        Some((b - 0x30) as u8)
    } else if 0x41 <= b && b <= 0x46 {
        Some((b - 0x41 + 10) as u8)
    } else if 0x61 <= b && b <= 0x66 {
        Some((b - 0x61 + 10) as u8)
    } else {
        None
    }
}

pub fn hex_digit(b: u8) -> (r: Option<u8>)
    ensures
        r == hex_value(b),
        r matches Some(v) ==> v < 16,
{
    if 0x30 <= b && b <= 0x39 {
        Some(b - 0x30)
    } else if 0x41 <= b && b <= 0x46 {
        Some(b - 0x41 + 10)
    } else if 0x61 <= b && b <= 0x66 {
        Some(b - 0x61 + 10)
    } else {
        None
    }
}

/// An ASCII upper-case letter becomes its lower-case letter; other bytes stay.
#[verifier::allow_in_spec]
pub fn to_lower(b: u8) -> u8
    returns
        (if 0x41 <= b && b <= 0x5a { (b + 32) as u8 } else { b }),
{
    if 0x41 <= b && b <= 0x5a {
        b + 32
    } else {
        b
    }
}

/// Two byte sequences are equal but for the case of ASCII letters.
pub open spec fn eq_ignore_case(a: Seq<u8>, b: Seq<u8>) -> bool {
    a.len() == b.len() && forall|k: int| 0 <= k < a.len() ==> to_lower(a[k]) == to_lower(b[k])
}

/// `needle` stands in `hay` at index `i`.
pub open spec fn matches_at(hay: Seq<u8>, needle: Seq<u8>, i: int) -> bool {
    0 <= i && i + needle.len() <= hay.len() && hay.subrange(i, i + needle.len()) == needle
}

/// As `matches_at`, but for the case of ASCII letters.
pub open spec fn matches_at_ignore_case(hay: Seq<u8>, needle: Seq<u8>, i: int) -> bool {
    0 <= i && i + needle.len() <= hay.len() && eq_ignore_case(
        hay.subrange(i, i + needle.len()),
        needle,
    )
}

/// The least index at or after `from` at which `needle` stands in `hay`.
pub open spec fn find_from(hay: Seq<u8>, needle: Seq<u8>, from: int) -> Option<int>
    decreases hay.len() - from + 1,
{
    if from < 0 || from + needle.len() > hay.len() {
        None
    } else if matches_at(hay, needle, from) {
        Some(from)
    } else {
        find_from(hay, needle, from + 1)
    }
}

/// The greatest index at or before `last` at which `needle` stands in `hay`.
pub open spec fn rfind_from(hay: Seq<u8>, needle: Seq<u8>, last: int) -> Option<int>
    decreases last + 1,
{
    if last < 0 {
        None
    } else if matches_at(hay, needle, last) {
        Some(last)
    } else {
        rfind_from(hay, needle, last - 1)
    }
}

/// `needle` occurs somewhere in `hay`.
pub open spec fn contains(hay: Seq<u8>, needle: Seq<u8>) -> bool {
    exists|i: int| matches_at(hay, needle, i)
}

/// `find_from` returns the first match at or after `from`, and `None` only
/// where there is none.
pub proof fn lemma_find_from(hay: Seq<u8>, needle: Seq<u8>, from: int)
    requires
        0 <= from,
    ensures
        match find_from(hay, needle, from) {
            Some(i) => from <= i && matches_at(hay, needle, i) && forall|j: int|
                from <= j < i ==> !matches_at(hay, needle, j),
            None => forall|j: int| from <= j ==> !matches_at(hay, needle, j),
        },
    decreases hay.len() - from + 1,
{
    if from + needle.len() > hay.len() {
    } else if matches_at(hay, needle, from) {
    } else {
        lemma_find_from(hay, needle, from + 1);
    }
}

/// `rfind_from` returns the last match at or before `last`, and `None` only
/// where there is none.
pub proof fn lemma_rfind_from(hay: Seq<u8>, needle: Seq<u8>, last: int)
    ensures
        match rfind_from(hay, needle, last) {
            Some(i) => 0 <= i <= last && matches_at(hay, needle, i) && forall|j: int|
                i < j <= last ==> !matches_at(hay, needle, j),
            None => forall|j: int| j <= last ==> !matches_at(hay, needle, j),
        },
    decreases last + 1,
{
    if last < 0 {
    } else if matches_at(hay, needle, last) {
    } else {
        lemma_rfind_from(hay, needle, last - 1);
    }
}

pub fn bytes_eq(a: &[u8], b: &[u8]) -> (r: bool)
    ensures
        r == (a@ == b@),
{
    if a.len() != b.len() {
        return false;
    }
    let mut i: usize = 0;
    while i < a.len()
        invariant
            a.len() == b.len(),
            i <= a.len(),
            forall|k: int| 0 <= k < i ==> a@[k] == b@[k],
        decreases a.len() - i,
    {
        if a[i] != b[i] {
            return false;
        }
        i += 1;
    }
    assert(a@ =~= b@);
    true
}

pub fn bytes_eq_ignore_case(a: &[u8], b: &[u8]) -> (r: bool)
    ensures
        r == eq_ignore_case(a@, b@),
{
    if a.len() != b.len() {
        return false;
    }
    let mut i: usize = 0;
    while i < a.len()
        invariant
            a.len() == b.len(),
            i <= a.len(),
            forall|k: int| 0 <= k < i ==> to_lower(a@[k]) == to_lower(b@[k]),
        decreases a.len() - i,
    {
        if to_lower(a[i]) != to_lower(b[i]) {
            return false;
        }
        i += 1;
    }
    true
}

pub fn starts_at(hay: &[u8], needle: &[u8], i: usize) -> (r: bool)
    ensures
        r == matches_at(hay@, needle@, i as int),
{
    if needle.len() > hay.len() || i > hay.len() - needle.len() {
        return false;
    }
    let mut k: usize = 0;
    while k < needle.len()
        invariant
            i + needle.len() <= hay.len(),
            k <= needle.len(),
            forall|j: int| 0 <= j < k ==> hay@[i + j] == needle@[j],
        decreases needle.len() - k,
    {
        if hay[i + k] != needle[k] {
            assert(hay@.subrange(i as int, i + needle.len())[k as int] == hay@[i + k]);
            return false;
        }
        k += 1;
    }
    assert(hay@.subrange(i as int, i + needle.len()) =~= needle@);
    true
}

/// The last bytes of `hay` are `needle`, but for the case of ASCII letters.
pub open spec fn ends_with_ignore_case(hay: Seq<u8>, needle: Seq<u8>) -> bool {
    matches_at_ignore_case(hay, needle, hay.len() - needle.len())
}

pub fn has_suffix_ignore_case(hay: &[u8], needle: &[u8]) -> (r: bool)
    ensures
        r == ends_with_ignore_case(hay@, needle@),
{
    if needle.len() > hay.len() {
        return false;
    }
    let start = hay.len() - needle.len();
    let tail = vstd::slice::slice_subrange(hay, start, hay.len());
    bytes_eq_ignore_case(tail, needle)
}

pub fn find(hay: &[u8], needle: &[u8], from: usize) -> (r: Option<usize>)
    ensures
        match r {
            Some(i) => find_from(hay@, needle@, from as int) == Some(i as int) && from <= i && i
                + needle.len() <= hay.len(),
            None => find_from(hay@, needle@, from as int) is None,
        },
{
    if needle.len() > hay.len() {
        return None;
    }
    let last = hay.len() - needle.len();
    if from > last {
        return None;
    }
    let mut i: usize = from;
    loop
        invariant
            last + needle.len() == hay.len(),
            from <= i <= last,
            find_from(hay@, needle@, from as int) == find_from(hay@, needle@, i as int),
        decreases last - i,
    {
        if starts_at(hay, needle, i) {
            return Some(i);
        }
        if i == last {
            assert(find_from(hay@, needle@, i + 1) is None);
            return None;
        }
        i += 1;
    }
}

pub fn rfind(hay: &[u8], needle: &[u8]) -> (r: Option<usize>)
    ensures
        match r {
            Some(i) => rfind_from(hay@, needle@, hay@.len() - needle@.len()) == Some(i as int) && i
                + needle.len() <= hay.len(),
            None => rfind_from(hay@, needle@, hay@.len() - needle@.len()) is None,
        },
{
    if needle.len() > hay.len() {
        return None;
    }
    let top = hay.len() - needle.len();
    let mut i: usize = top;
    loop
        invariant
            top + needle.len() == hay.len(),
            i <= top,
            rfind_from(hay@, needle@, top as int) == rfind_from(hay@, needle@, i as int),
        decreases i,
    {
        if starts_at(hay, needle, i) {
            return Some(i);
        }
        if i == 0 {
            assert(rfind_from(hay@, needle@, -1) is None);
            return None;
        }
        i -= 1;
    }
}

pub fn has_match(hay: &[u8], needle: &[u8]) -> (r: bool)
    ensures
        r == contains(hay@, needle@),
{
    let found = find(hay, needle, 0);
    proof {
        lemma_find_from(hay@, needle@, 0);
    }
    found.is_some()
}

/// A copy of the bytes from `start` up to `end`.
pub fn copy_range(buf: &[u8], start: usize, end: usize) -> (r: Vec<u8>)
    requires
        start <= end <= buf.len(),
    ensures
        r@ == buf@.subrange(start as int, end as int),
{
    let mut out: Vec<u8> = Vec::new();
    let mut i: usize = start;
    while i < end
        invariant
            start <= i <= end <= buf.len(),
            out@ == buf@.subrange(start as int, i as int),
        decreases end - i,
    {
        out.push(buf[i]);
        assert(out@ =~= buf@.subrange(start as int, i + 1));
        i += 1;
    }
    out
}

} // verus!
