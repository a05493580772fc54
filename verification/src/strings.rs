//! Text strings of a PDF: file names and the like, as UTF-8.
use vstd::prelude::*;
use crate::bytes::copy_range;

verus! {

/// The code point that stands for what cannot be decoded.
pub const REPLACEMENT: u32 = 0xFFFD;

/// The UTF-8 encoding of a code point up to U+10FFFF.
pub open spec fn utf8_of(cp: int) -> Seq<u8> {
    if cp < 0x80 {
        seq![cp as u8]
    } else if cp < 0x800 {
        seq![(0xC0 + cp / 64) as u8, (0x80 + cp % 64) as u8]
    } else if cp < 0x10000 {
        seq![(0xE0 + cp / 4096) as u8, (0x80 + (cp / 64) % 64) as u8, (0x80 + cp % 64) as u8]
    } else {
        seq![
            (0xF0 + cp / 262144) as u8,
            (0x80 + (cp / 4096) % 64) as u8,
            (0x80 + (cp / 64) % 64) as u8,
            (0x80 + cp % 64) as u8,
        ]
    }
}

/// The UTF-16 code unit that two bytes write, the first byte counting most.
pub open spec fn unit_at(s: Seq<u8>, pos: int) -> int {
    s[pos] * 256 + s[pos + 1]
}

pub open spec fn is_high_surrogate(u: int) -> bool {
    0xD800 <= u < 0xDC00
}

pub open spec fn is_low_surrogate(u: int) -> bool {
    0xDC00 <= u < 0xE000
}

/// The UTF-8 text of big-endian UTF-16 from `pos` on, after `acc`. A
/// surrogate without its partner and a single byte at the end give the
/// replacement character.
pub open spec fn utf16_decoded(s: Seq<u8>, pos: int, acc: Seq<u8>) -> Seq<u8>
    decreases s.len() - pos,
{
    if pos < 0 || pos >= s.len() {
        acc
    } else if pos + 1 >= s.len() {
        acc + utf8_of(REPLACEMENT as int)
    } else {
        let u = unit_at(s, pos);
        if is_high_surrogate(u) && pos + 3 < s.len() && is_low_surrogate(unit_at(s, pos + 2)) {
            utf16_decoded(
                s,
                pos + 4,
                acc + utf8_of(0x10000 + (u - 0xD800) * 1024 + (unit_at(s, pos + 2) - 0xDC00)),
            )
        } else if is_high_surrogate(u) || is_low_surrogate(u) {
            utf16_decoded(s, pos + 2, acc + utf8_of(REPLACEMENT as int))
        } else {
            utf16_decoded(s, pos + 2, acc + utf8_of(u))
        }
    }
}

/// The string begins with the byte order mark of big-endian UTF-16.
pub open spec fn has_utf16_mark(raw: Seq<u8>) -> bool {
    raw.len() >= 2 && raw[0] == 0xFE && raw[1] == 0xFF
}

/// The string begins with the byte order mark of UTF-8.
pub open spec fn has_utf8_mark(raw: Seq<u8>) -> bool {
    raw.len() >= 3 && raw[0] == 0xEF && raw[1] == 0xBB && raw[2] == 0xBF
}

/// The text of a text string, as UTF-8. A string that begins with the mark
/// FE FF is big-endian UTF-16; one that begins with EF BB BF is UTF-8 behind
/// the mark; any other string is taken as it is.
pub open spec fn text_of(raw: Seq<u8>) -> Seq<u8> {
    if has_utf16_mark(raw) {
        utf16_decoded(raw, 2, Seq::empty())
    } else if has_utf8_mark(raw) {
        raw.subrange(3, raw.len() as int)
    } else {
        raw
    }
}

fn push_utf8(out: &mut Vec<u8>, cp: u32)
    requires
        cp <= 0x10FFFF,
    ensures
        final(out)@ == old(out)@ + utf8_of(cp as int),
{
    if cp < 0x80 {
        out.push(cp as u8);
    } else if cp < 0x800 {
        out.push((0xC0 + cp / 64) as u8);
        out.push((0x80 + cp % 64) as u8);
    } else if cp < 0x10000 {
        out.push((0xE0 + cp / 4096) as u8);
        out.push((0x80 + (cp / 64) % 64) as u8);
        out.push((0x80 + cp % 64) as u8);
    } else {
        out.push((0xF0 + cp / 262144) as u8);
        out.push((0x80 + (cp / 4096) % 64) as u8);
        out.push((0x80 + (cp / 64) % 64) as u8);
        out.push((0x80 + cp % 64) as u8);
    }
    assert(out@ =~= old(out)@ + utf8_of(cp as int));
}

fn read_unit(s: &[u8], pos: usize) -> (u: u32)
    requires
        pos + 1 < s.len(),
    ensures
        u as int == unit_at(s@, pos as int),
        u <= 0xFFFF,
{
    s[pos] as u32 * 256 + s[pos + 1] as u32
}

fn decode_utf16(s: &[u8], start: usize) -> (r: Vec<u8>)
    requires
        start <= s.len(),
    ensures
        r@ == utf16_decoded(s@, start as int, Seq::empty()),
{
    let mut out: Vec<u8> = Vec::new();
    let mut i: usize = start;
    let n = s.len();
    while i < n
        invariant
            n == s.len(),
            start <= i <= n,
            utf16_decoded(s@, start as int, Seq::empty()) == utf16_decoded(s@, i as int, out@),
        decreases n - i,
    {
        if n - i < 2 {
            push_utf8(&mut out, REPLACEMENT);
            i = n;
        } else {
            let u = read_unit(s, i);
            if 0xD800 <= u && u < 0xDC00 && n - i >= 4 {
                let low = read_unit(s, i + 2);
                if 0xDC00 <= low && low < 0xE000 {
                    push_utf8(&mut out, 0x10000 + (u - 0xD800) * 1024 + (low - 0xDC00));
                    i += 4;
                } else {
                    push_utf8(&mut out, REPLACEMENT);
                    i += 2;
                }
            } else if 0xD800 <= u && u < 0xE000 {
                push_utf8(&mut out, REPLACEMENT);
                i += 2;
            } else {
                push_utf8(&mut out, u);
                i += 2;
            }
        }
    }
    out
}

/// The text of a text string, as UTF-8.
pub fn decode_text(raw: &[u8]) -> (r: Vec<u8>)
    ensures
        r@ == text_of(raw@),
{
    if raw.len() >= 2 && raw[0] == 0xFE && raw[1] == 0xFF {
        decode_utf16(raw, 2)
    } else if raw.len() >= 3 && raw[0] == 0xEF && raw[1] == 0xBB && raw[2] == 0xBF {
        copy_range(raw, 3, raw.len())
    } else {
        let text = copy_range(raw, 0, raw.len());
        assert(text@ =~= raw@);
        text
    }
}

} // verus!
