//! The PDF/A identification in the XMP metadata packet.
use vstd::prelude::*;
use crate::bytes::{ascii, bytes_eq, copy_range, find, find_from, is_whitespace, opt_bytes};

verus! {

pub const QUOTE: u8 = 0x22;

pub const APOSTROPHE: u8 = 0x27;

pub const EQUALS: u8 = 0x3d;

pub const TAG_OPEN: u8 = 0x3c;

pub const TAG_CLOSE: u8 = 0x3e;

/// The end of the run of white space that starts at `pos`.
pub open spec fn spaces_end(s: Seq<u8>, pos: int) -> int
    decreases s.len() - pos,
{
    if 0 <= pos < s.len() && is_whitespace(s[pos]) {
        spaces_end(s, pos + 1)
    } else {
        pos
    }
}

/// The least index at or after `from` that holds the byte `b`.
pub open spec fn byte_index(s: Seq<u8>, b: u8, from: int) -> Option<int>
    decreases s.len() - from,
{
    if from < 0 || from >= s.len() {
        None
    } else if s[from] == b {
        Some(from)
    } else {
        byte_index(s, b, from + 1)
    }
}

/// The end of the bytes from `start` up to `end`, less the white space at
/// their end.
pub open spec fn trimmed_end(s: Seq<u8>, start: int, end: int) -> int
    decreases end - start,
{
    if start < end <= s.len() && is_whitespace(s[end - 1]) {
        trimmed_end(s, start, end - 1)
    } else {
        end
    }
}

/// The bytes from `start` up to the next byte `stop`, without the white space
/// at either end; `None` where no `stop` follows.
pub open spec fn text_between(s: Seq<u8>, start: int, stop: u8) -> Option<Seq<u8>> {
    match byte_index(s, stop, start) {
        None => None,
        Some(e) => {
            let a = spaces_end(s, start);
            if a >= e {
                Some(Seq::empty())
            } else {
                Some(s.subrange(a, trimmed_end(s, a, e)))
            }
        },
    }
}

/// The value that follows a property name which ended at `p`: the content of
/// the element, up to the next tag, where `>` follows; the quoted value where
/// `=` follows.
pub open spec fn value_after(s: Seq<u8>, p: int) -> Option<Seq<u8>> {
    let q = spaces_end(s, p);
    if q < 0 || q >= s.len() {
        None
    } else if s[q] == TAG_CLOSE {
        text_between(s, q + 1, TAG_OPEN)
    } else if s[q] == EQUALS {
        let r = spaces_end(s, q + 1);
        if 0 <= r < s.len() && (s[r] == QUOTE || s[r] == APOSTROPHE) {
            text_between(s, r + 1, s[r])
        } else {
            None
        }
    } else {
        None
    }
}

/// The value of the property `name` in the packet: what follows the first
/// occurrence of the name, as an element or as an attribute.
pub open spec fn property_value(xml: Seq<u8>, name: Seq<u8>) -> Option<Seq<u8>> {
    match find_from(xml, name, 0) {
        Some(i) => value_after(xml, i + name.len()),
        None => None,
    }
}

/// The packet identifies the document as PDF/A-3: its `pdfaid:part` is `3`.
/// The conformance level is not looked at.
pub open spec fn is_pdfa3(xml: Seq<u8>) -> bool {
    property_value(xml, ascii("pdfaid:part")) == Some(ascii("3"))
}

fn skip_spaces(s: &[u8], pos: usize) -> (r: usize)
    requires
        pos <= s.len(),
    ensures
        r as int == spaces_end(s@, pos as int),
        pos <= r <= s.len(),
{
    let mut i: usize = pos;
    while i < s.len() && is_whitespace(s[i])
        invariant
            pos <= i <= s.len(),
            spaces_end(s@, pos as int) == spaces_end(s@, i as int),
        decreases s.len() - i,
    {
        i += 1;
    }
    i
}

fn find_byte(s: &[u8], b: u8, from: usize) -> (r: Option<usize>)
    ensures
        match r {
            Some(i) => byte_index(s@, b, from as int) == Some(i as int) && from <= i < s.len(),
            None => byte_index(s@, b, from as int) is None,
        },
{
    let mut i: usize = from;
    while i < s.len()
        invariant
            from <= i,
            byte_index(s@, b, from as int) == byte_index(s@, b, i as int),
        decreases s.len() - i,
    {
        if s[i] == b {
            return Some(i);
        }
        i += 1;
    }
    None
}

fn trim_end(s: &[u8], start: usize, end: usize) -> (r: usize)
    requires
        start <= end <= s.len(),
    ensures
        r as int == trimmed_end(s@, start as int, end as int),
        start <= r <= end,
{
    let mut e: usize = end;
    while start < e && is_whitespace(s[e - 1])
        invariant
            start <= e <= end <= s.len(),
            trimmed_end(s@, start as int, end as int) == trimmed_end(s@, start as int, e as int),
        decreases e - start,
    {
        e -= 1;
    }
    e
}

fn read_between(s: &[u8], start: usize, stop: u8) -> (r: Option<Vec<u8>>)
    requires
        start <= s.len(),
    ensures
        opt_bytes(r) == text_between(s@, start as int, stop),
{
    match find_byte(s, stop, start) {
        None => None,
        Some(e) => {
            let a = skip_spaces(s, start);
            if a >= e {
                Some(Vec::new())
            } else {
                Some(copy_range(s, a, trim_end(s, a, e)))
            }
        },
    }
}

fn read_value_after(s: &[u8], p: usize) -> (r: Option<Vec<u8>>)
    requires
        p <= s.len(),
    ensures
        opt_bytes(r) == value_after(s@, p as int),
{
    let q = skip_spaces(s, p);
    if q >= s.len() {
        None
    } else if s[q] == TAG_CLOSE {
        read_between(s, q + 1, TAG_OPEN)
    } else if s[q] == EQUALS {
        let r = skip_spaces(s, q + 1);
        if r < s.len() && (s[r] == QUOTE || s[r] == APOSTROPHE) {
            read_between(s, r + 1, s[r])
        } else {
            None
        }
    } else {
        None
    }
}

/// Reads the value of a property from an XMP packet.
///
/// The first occurrence of the name counts. Written as an element, the value
/// is the text up to the next tag; written as an attribute, the text between
/// the quotes. White space around the value is dropped. `None` where the name
/// does not occur or no value follows it.
pub fn read_property(xml: &[u8], name: &[u8]) -> (r: Option<Vec<u8>>)
    ensures
        opt_bytes(r) == property_value(xml@, name@),
{
    match find(xml, name, 0) {
        Some(i) => read_value_after(xml, i + name.len()),
        None => None,
    }
}

/// The PDF/A identification of a packet: the part and the conformance
/// level, each where the packet states it.
#[derive(Debug, PartialEq, Eq)]
pub struct PdfaIdentification {
    pub part: Option<Vec<u8>>,
    pub conformance: Option<Vec<u8>>,
}

impl PdfaIdentification {
    /// The identification is that of PDF/A-3: the part is `3`. The
    /// conformance level does not count.
    pub open spec fn is_part_three(&self) -> bool {
        opt_bytes(self.part) == Some(ascii("3"))
    }

    /// Whether the part is `3`.
    pub fn part_three(&self) -> (r: bool)
        ensures
            r == self.is_part_three(),
    {
        match &self.part {
            Some(part) => bytes_eq(part.as_slice(), "3".as_bytes()),
            None => false,
        }
    }
}

/// Reads the PDF/A identification from an XMP packet: the values of
/// `pdfaid:part` and `pdfaid:conformance`.
pub fn read_identification(xml: &[u8]) -> (r: PdfaIdentification)
    ensures
        opt_bytes(r.part) == property_value(xml@, ascii("pdfaid:part")),
        opt_bytes(r.conformance) == property_value(xml@, ascii("pdfaid:conformance")),
        r.is_part_three() == is_pdfa3(xml@),
{
    PdfaIdentification {
        part: read_property(xml, "pdfaid:part".as_bytes()),
        conformance: read_property(xml, "pdfaid:conformance".as_bytes()),
    }
}

/// Whether an XMP packet declares PDF/A part 3.
pub fn declares_pdfa3(xml: &[u8]) -> (r: bool)
    ensures
        r == is_pdfa3(xml@),
{
    read_identification(xml).part_three()
}

} // verus!
