//! Stream filters: the chain that a stream dictionary declares is undone
//! filter by filter, in the declared order.
use vstd::prelude::*;
use crate::bytes::{ascii, bytes_eq, hex_digit, hex_value, is_whitespace, opt_bytes, GT};
use crate::error::ParseError;
use crate::object::{
    dict_get, dict_lookup, dict_view, items_view, lemma_items_view, PdfObject, Value,
};

verus! {

/// The most bytes that one inflation may produce.
pub const MAX_DECODED: usize = 0x1000_0000;

/// The most columns of a predictor row.
pub const MAX_COLUMNS: i64 = 0x10_0000;

/// What inflating the zlib stream `data` gives when at most `limit` bytes may
/// come out: the bytes, or `None` where the stream is corrupt, truncated or
/// longer than the limit.
pub uninterp spec fn zlib_inflated(data: Seq<u8>, limit: int) -> Option<Seq<u8>>;

/// Calls `miniz_oxide::inflate::decompress_to_vec_zlib_with_limit`. The
/// contract only names what it returns: its `Ok` value, or `None` for any of
/// its errors. Nothing is proved of the inflation itself.
#[verifier::external_body]
fn zlib_inflate(data: &[u8], limit: usize) -> (r: Option<Vec<u8>>)
    ensures
        opt_bytes(r) == zlib_inflated(data@, limit as int),
{
    match miniz_oxide::inflate::decompress_to_vec_zlib_with_limit(data, limit) {
        Ok(out) => Some(out),
        Err(_) => None,
    }
}

/// The bytes of a result, or its error.
pub open spec fn bytes_result(r: Result<Vec<u8>, ParseError>) -> Result<Seq<u8>, ParseError> {
    match r {
        Ok(v) => Ok(v@),
        Err(e) => Err(e),
    }
}

/// The value of an optional object.
pub open spec fn opt_value(o: Option<&PdfObject>) -> Option<Value> {
    match o {
        Some(v) => Some(v@),
        None => None,
    }
}

/// The entries of an optional dictionary.
pub open spec fn opt_dict(o: Option<&Vec<(Vec<u8>, PdfObject)>>) -> Option<
    Seq<(Seq<u8>, Value)>,
> {
    match o {
        Some(d) => Some(dict_view(*d)),
        None => None,
    }
}

/// The bytes that ASCII hexadecimal data from `pos` writes, with `acc` read so
/// far and `pending` the high digit of an unfinished byte. `>` or the end of
/// the data ends it, white space is skipped, a missing last digit counts as
/// zero. `None` where a byte is neither.
pub open spec fn hex_decoded(s: Seq<u8>, pos: int, acc: Seq<u8>, pending: Option<u8>) -> Option<
    Seq<u8>,
>
    decreases s.len() - pos,
{
    if pos < 0 || pos >= s.len() || s[pos] == GT {
        match pending {
            Some(h) => Some(acc.push((h * 16) as u8)),
            None => Some(acc),
        }
    } else if is_whitespace(s[pos]) {
        hex_decoded(s, pos + 1, acc, pending)
    } else {
        match hex_value(s[pos]) {
            Some(v) => match pending {
                Some(h) => hex_decoded(s, pos + 1, acc.push((h * 16 + v) as u8), None),
                None => hex_decoded(s, pos + 1, acc, Some(v)),
            },
            None => None,
        }
    }
}

/// The tilde that begins the end marker `~>` of ASCII base-85 data.
pub const TILDE: u8 = 0x7e;

/// The letter `z`, which stands for four zero bytes.
pub const ZED: u8 = 0x7a;

/// 85 to the power `n`, for `n` up to 4.
pub open spec fn pow85(n: int) -> int {
    if n <= 0 {
        1
    } else if n == 1 {
        85
    } else if n == 2 {
        7225
    } else if n == 3 {
        614125
    } else {
        52200625
    }
}

/// The first `n` of the four bytes that write `v`, the first byte counting
/// most.
pub open spec fn be_bytes(v: int, n: int) -> Seq<u8> {
    let all = seq![
        ((v / 16777216) % 256) as u8,
        ((v / 65536) % 256) as u8,
        ((v / 256) % 256) as u8,
        (v % 256) as u8,
    ];
    all.subrange(0, n)
}

/// What an unfinished group of `count` digits with value `value` adds at the
/// end of the data. A group of two to four digits is filled up with the
/// highest digit and gives one byte less than it has digits; a single digit
/// is an error, and so is a group that writes more than 32 bits.
pub open spec fn a85_tail(acc: Seq<u8>, count: int, value: int) -> Option<Seq<u8>> {
    if count == 0 {
        Some(acc)
    } else if count == 1 {
        None
    } else {
        let full = value * pow85(5 - count) + pow85(5 - count) - 1;
        if full > 0xFFFF_FFFF {
            None
        } else {
            Some(acc + be_bytes(full, count - 1))
        }
    }
}

/// The bytes that ASCII base-85 data from `pos` writes, after `acc`, with an
/// unfinished group of `count` digits of value `value`. Five digits from `!`
/// to `u` write four bytes, `z` between groups writes four zero bytes, white
/// space is skipped, and `~` or the end of the data ends it. `None` where a
/// byte is none of these or a group writes more than 32 bits.
pub open spec fn a85_decoded(s: Seq<u8>, pos: int, acc: Seq<u8>, count: int, value: int) -> Option<
    Seq<u8>,
>
    decreases s.len() - pos,
{
    if pos < 0 || pos >= s.len() || s[pos] == TILDE {
        a85_tail(acc, count, value)
    } else if is_whitespace(s[pos]) {
        a85_decoded(s, pos + 1, acc, count, value)
    } else if s[pos] == ZED {
        if count == 0 {
            a85_decoded(s, pos + 1, acc + be_bytes(0, 4), 0, 0)
        } else {
            None
        }
    } else if 0x21 <= s[pos] <= 0x75 {
        let next = value * 85 + (s[pos] - 0x21);
        if count < 4 {
            a85_decoded(s, pos + 1, acc, count + 1, next)
        } else if next > 0xFFFF_FFFF {
            None
        } else {
            a85_decoded(s, pos + 1, acc + be_bytes(next, 4), 0, 0)
        }
    } else {
        None
    }
}

pub open spec fn abs_diff(x: int, y: int) -> int {
    if x >= y {
        x - y
    } else {
        y - x
    }
}

/// The Paeth predictor: of left `a`, up `b` and upper left `c`, the one
/// nearest to `a + b - c`, ties going to `a`, then `b`.
pub open spec fn paeth(a: int, b: int, c: int) -> int {
    let p = a + b - c;
    if abs_diff(p, a) <= abs_diff(p, b) && abs_diff(p, a) <= abs_diff(p, c) {
        a
    } else if abs_diff(p, b) <= abs_diff(p, c) {
        b
    } else {
        c
    }
}

/// What a PNG row filter of type `ft` predicts from the neighbours.
pub open spec fn predicted(ft: u8, a: int, b: int, c: int) -> int {
    if ft == 1 {
        a
    } else if ft == 2 {
        b
    } else if ft == 3 {
        (a + b) / 2
    } else if ft == 4 {
        paeth(a, b, c)
    } else {
        0
    }
}

/// The first `n` bytes of the row that the filtered bytes `raw` stand for,
/// given the row above, `prev`, and `bpp` bytes per pixel.
pub open spec fn recon(ft: u8, raw: Seq<u8>, prev: Seq<u8>, bpp: int, n: int) -> Seq<u8>
    decreases n,
{
    if n <= 0 {
        Seq::empty()
    } else {
        let r = recon(ft, raw, prev, bpp, n - 1);
        let i = n - 1;
        let a = if i >= bpp {
            r[i - bpp] as int
        } else {
            0
        };
        let b = prev[i] as int;
        let c = if i >= bpp {
            prev[i - bpp] as int
        } else {
            0
        };
        r.push(((raw[i] + predicted(ft, a, b, c)) % 256) as u8)
    }
}

/// The rows that PNG-filtered data from `pos` stands for, after `acc`. Each
/// row is a filter type, 0 to 4, and `row_len` bytes; `prev` is the row above.
/// `None` where a type is unknown or the last row is cut short.
pub open spec fn png_rows(
    data: Seq<u8>,
    row_len: int,
    bpp: int,
    pos: int,
    prev: Seq<u8>,
    acc: Seq<u8>,
) -> Option<Seq<u8>>
    decreases data.len() - pos,
{
    if row_len < 0 || pos < 0 {
        None
    } else if pos >= data.len() {
        Some(acc)
    } else if pos + 1 + row_len > data.len() || data[pos] > 4 {
        None
    } else {
        let row = recon(data[pos], data.subrange(pos + 1, pos + 1 + row_len), prev, bpp, row_len);
        png_rows(data, row_len, bpp, pos + 1 + row_len, row, acc + row)
    }
}

/// A row of `n` zero bytes.
pub open spec fn zeros(n: int) -> Seq<u8> {
    Seq::new(n as nat, |i: int| 0u8)
}

/// An integer parameter of a filter, or its default.
pub open spec fn int_param(parms: Option<Seq<(Seq<u8>, Value)>>, key: Seq<u8>, default: int) -> int {
    match parms {
        Some(p) => match dict_get(p, key) {
            Some(Value::Integer(n)) => n,
            _ => default,
        },
        None => default,
    }
}

/// The bytes of a row and of a pixel for a PNG predictor, where the
/// parameters are in the ranges that are handled.
pub open spec fn png_layout(colors: int, bits: int, columns: int) -> Option<(int, int)> {
    if 1 <= colors <= 255 && (bits == 1 || bits == 2 || bits == 4 || bits == 8 || bits == 16) && 1
        <= columns <= MAX_COLUMNS {
        Some(((colors * bits * columns + 7) / 8, (colors * bits + 7) / 8))
    } else {
        None
    }
}

/// The data with the predictor of the parameters undone. Predictor 1 leaves
/// the data as it is, 10 to 15 are the PNG predictors; the TIFF predictor and
/// unknown ones are not supported.
pub open spec fn unpredicted(parms: Option<Seq<(Seq<u8>, Value)>>, data: Seq<u8>) -> Result<
    Seq<u8>,
    ParseError,
> {
    let predictor = int_param(parms, ascii("Predictor"), 1);
    if predictor == 1 {
        Ok(data)
    } else if 10 <= predictor <= 15 {
        match png_layout(
            int_param(parms, ascii("Colors"), 1),
            int_param(parms, ascii("BitsPerComponent"), 8),
            int_param(parms, ascii("Columns"), 1),
        ) {
            Some((row_len, bpp)) => match png_rows(
                data,
                row_len,
                bpp,
                0,
                zeros(row_len),
                Seq::empty(),
            ) {
                Some(out) => Ok(out),
                None => Err(ParseError::FilterDecodeError),
            },
            None => Err(ParseError::UnsupportedFilter),
        }
    } else {
        Err(ParseError::UnsupportedFilter)
    }
}

/// What the flate filter returns, given what the inflation returned.
pub open spec fn flate_output(
    inflated: Option<Seq<u8>>,
    parms: Option<Seq<(Seq<u8>, Value)>>,
) -> Result<Seq<u8>, ParseError> {
    match inflated {
        Some(data) => unpredicted(parms, data),
        None => Err(ParseError::FilterDecodeError),
    }
}

/// The data with the filter `name` undone.
pub open spec fn filtered(
    name: Seq<u8>,
    parms: Option<Seq<(Seq<u8>, Value)>>,
    data: Seq<u8>,
) -> Result<Seq<u8>, ParseError> {
    if name == ascii("FlateDecode") || name == ascii("Fl") {
        flate_output(zlib_inflated(data, MAX_DECODED as int), parms)
    } else if name == ascii("ASCIIHexDecode") || name == ascii("AHx") {
        match hex_decoded(data, 0, Seq::empty(), None) {
            Some(out) => Ok(out),
            None => Err(ParseError::FilterDecodeError),
        }
    } else if name == ascii("ASCII85Decode") || name == ascii("A85") {
        match a85_decoded(data, 0, Seq::empty(), 0, 0) {
            Some(out) => Ok(out),
            None => Err(ParseError::FilterDecodeError),
        }
    } else {
        Err(ParseError::UnsupportedFilter)
    }
}

/// The parameters of the filter at index `i`: a single dictionary belongs to
/// the first filter, an array holds one entry for each.
pub open spec fn parms_for(parms: Option<Value>, i: int) -> Option<Seq<(Seq<u8>, Value)>> {
    match parms {
        Some(Value::Dictionary(p)) => if i == 0 {
            Some(p)
        } else {
            None
        },
        Some(Value::Array(a)) => if 0 <= i < a.len() {
            match a[i] {
                Value::Dictionary(p) => Some(p),
                _ => None,
            }
        } else {
            None
        },
        _ => None,
    }
}

/// The data with the filters from index `i` on undone, one after another.
pub open spec fn chain_decoded(
    names: Seq<Value>,
    parms: Option<Value>,
    i: int,
    data: Seq<u8>,
) -> Result<Seq<u8>, ParseError>
    decreases names.len() - i,
{
    if i < 0 || i >= names.len() {
        Ok(data)
    } else {
        match names[i] {
            Value::Name(n) => match filtered(n, parms_for(parms, i), data) {
                Ok(out) => chain_decoded(names, parms, i + 1, out),
                Err(e) => Err(e),
            },
            _ => Err(ParseError::UnsupportedFilter),
        }
    }
}

/// The decoded data of a stream with dictionary `d` and stored data `raw`.
/// `/Filter` is absent, one name or an array of names; `/DecodeParms` holds
/// the parameters.
pub open spec fn decoded(d: Seq<(Seq<u8>, Value)>, raw: Seq<u8>) -> Result<Seq<u8>, ParseError> {
    match dict_get(d, ascii("Filter")) {
        None => Ok(raw),
        Some(Value::Null) => Ok(raw),
        Some(Value::Name(n)) => filtered(n, parms_for(dict_get(d, ascii("DecodeParms")), 0), raw),
        Some(Value::Array(names)) => chain_decoded(
            names,
            dict_get(d, ascii("DecodeParms")),
            0,
            raw,
        ),
        Some(_) => Err(ParseError::UnsupportedFilter),
    }
}

/// Undoes the ASCII hexadecimal filter.
pub fn hex_decode(data: &[u8]) -> (r: Option<Vec<u8>>)
    ensures
        opt_bytes(r) == hex_decoded(data@, 0, Seq::empty(), None),
{
    let mut out: Vec<u8> = Vec::new();
    let mut i: usize = 0;
    let mut pending: Option<u8> = None;
    while i < data.len() && data[i] != GT
        invariant
            i <= data.len(),
            pending matches Some(h) ==> h < 16,
            hex_decoded(data@, 0, Seq::empty(), None) == hex_decoded(
                data@,
                i as int,
                out@,
                pending,
            ),
        decreases data.len() - i,
    {
        let c = data[i];
        if !is_whitespace(c) {
            match hex_digit(c) {
                Some(v) => {
                    match pending {
                        Some(h) => {
                            out.push(h * 16 + v);
                            pending = None;
                        },
                        None => {
                            pending = Some(v);
                        },
                    }
                },
                None => {
                    return None;
                },
            }
        }
        i += 1;
    }
    match pending {
        Some(h) => {
            out.push(h * 16);
        },
        None => {},
    }
    Some(out)
}

fn push_be(out: &mut Vec<u8>, v: u64, n: usize)
    requires
        v <= 0xFFFF_FFFF,
        n <= 4,
    ensures
        final(out)@ == old(out)@ + be_bytes(v as int, n as int),
{
    let bytes: [u8; 4] = [
        ((v / 16777216) % 256) as u8,
        ((v / 65536) % 256) as u8,
        ((v / 256) % 256) as u8,
        (v % 256) as u8,
    ];
    let mut i: usize = 0;
    while i < n
        invariant
            i <= n <= 4,
            bytes@ == seq![
                ((v as int / 16777216) % 256) as u8,
                ((v as int / 65536) % 256) as u8,
                ((v as int / 256) % 256) as u8,
                (v as int % 256) as u8,
            ],
            out@ == old(out)@ + be_bytes(v as int, i as int),
        decreases n - i,
    {
        out.push(bytes[i]);
        assert(out@ =~= old(out)@ + be_bytes(v as int, i + 1));
        i += 1;
    }
    assert(be_bytes(v as int, 0) =~= Seq::empty());
}

fn power85(n: usize) -> (r: u64)
    requires
        n <= 4,
    ensures
        r as int == pow85(n as int),
{
    if n == 0 {
        1
    } else if n == 1 {
        85
    } else if n == 2 {
        7225
    } else if n == 3 {
        614125
    } else {
        52200625
    }
}

/// Undoes the ASCII base-85 filter.
pub fn a85_decode(data: &[u8]) -> (r: Option<Vec<u8>>)
    ensures
        opt_bytes(r) == a85_decoded(data@, 0, Seq::empty(), 0, 0),
{
    let mut out: Vec<u8> = Vec::new();
    let mut i: usize = 0;
    let mut count: usize = 0;
    let mut value: u64 = 0;
    while i < data.len() && data[i] != TILDE
        invariant
            i <= data.len(),
            count <= 4,
            value < pow85(count as int),
            a85_decoded(data@, 0, Seq::empty(), 0, 0) == a85_decoded(
                data@,
                i as int,
                out@,
                count as int,
                value as int,
            ),
        decreases data.len() - i,
    {
        let c = data[i];
        if is_whitespace(c) {
        } else if c == ZED {
            if count != 0 {
                return None;
            }
            push_be(&mut out, 0, 4);
        } else if 0x21 <= c && c <= 0x75 {
            let next: u64 = value * 85 + (c - 0x21) as u64;
            if count < 4 {
                count += 1;
                value = next;
            } else if next > 0xFFFF_FFFF {
                return None;
            } else {
                push_be(&mut out, next, 4);
                count = 0;
                value = 0;
            }
        } else {
            return None;
        }
        i += 1;
    }
    if count == 0 {
        Some(out)
    } else if count == 1 {
        None
    } else {
        let scale = power85(5 - count);
        let full: u64 = value * scale + scale - 1;
        if full > 0xFFFF_FFFF {
            None
        } else {
            push_be(&mut out, full, count - 1);
            Some(out)
        }
    }
}

fn predict(ft: u8, a: u8, b: u8, c: u8) -> (r: u8)
    ensures
        r as int == predicted(ft, a as int, b as int, c as int),
{
    if ft == 1 {
        a
    } else if ft == 2 {
        b
    } else if ft == 3 {
        ((a as u16 + b as u16) / 2) as u8
    } else if ft == 4 {
        let p: i32 = a as i32 + b as i32 - c as i32;
        let pa: i32 = if p >= a as i32 {
            p - a as i32
        } else {
            a as i32 - p
        };
        let pb: i32 = if p >= b as i32 {
            p - b as i32
        } else {
            b as i32 - p
        };
        let pc: i32 = if p >= c as i32 {
            p - c as i32
        } else {
            c as i32 - p
        };
        if pa <= pb && pa <= pc {
            a
        } else if pb <= pc {
            b
        } else {
            c
        }
    } else {
        0
    }
}

fn zero_row(n: usize) -> (r: Vec<u8>)
    ensures
        r@ == zeros(n as int),
{
    let mut row: Vec<u8> = Vec::new();
    let mut i: usize = 0;
    while i < n
        invariant
            i <= n,
            row.len() == i,
            forall|k: int| 0 <= k < i ==> row@[k] == 0u8,
        decreases n - i,
    {
        row.push(0);
        i += 1;
    }
    assert(row@ =~= zeros(n as int));
    row
}

/// Undoes the PNG row filters of `data`, whose rows hold `row_len` bytes.
pub fn png_unfilter(data: &[u8], row_len: usize, bpp: usize) -> (r: Option<Vec<u8>>)
    requires
        row_len < usize::MAX,
        1 <= bpp,
    ensures
        opt_bytes(r) == png_rows(
            data@,
            row_len as int,
            bpp as int,
            0,
            zeros(row_len as int),
            Seq::empty(),
        ),
{
    let mut out: Vec<u8> = Vec::new();
    let mut prev: Vec<u8> = zero_row(row_len);
    let mut pos: usize = 0;
    while pos < data.len()
        invariant
            pos <= data.len(),
            row_len < usize::MAX,
            1 <= bpp,
            prev.len() == row_len,
            png_rows(data@, row_len as int, bpp as int, 0, zeros(row_len as int), Seq::empty())
                == png_rows(data@, row_len as int, bpp as int, pos as int, prev@, out@),
        decreases data.len() - pos,
    {
        if data.len() - pos < 1 + row_len {
            return None;
        }
        let ft = data[pos];
        if ft > 4 {
            return None;
        }
        let ghost raw = data@.subrange(pos + 1, pos + 1 + row_len);
        let ghost before = out@;
        let mut cur: Vec<u8> = Vec::new();
        let mut i: usize = 0;
        while i < row_len
            invariant
                i <= row_len,
                1 <= bpp,
                pos + 1 + row_len <= data.len(),
                prev.len() == row_len,
                cur.len() == i,
                raw == data@.subrange(pos + 1, pos + 1 + row_len),
                cur@ == recon(ft, raw, prev@, bpp as int, i as int),
                out@ == before + cur@,
            decreases row_len - i,
        {
            let a: u8 = if i >= bpp {
                cur[i - bpp]
            } else {
                0
            };
            let b: u8 = prev[i];
            let c: u8 = if i >= bpp {
                prev[i - bpp]
            } else {
                0
            };
            let p = predict(ft, a, b, c);
            let v: u8 = ((data[pos + 1 + i] as u16 + p as u16) % 256) as u8;
            assert(raw[i as int] == data@[pos + 1 + i]);
            cur.push(v);
            out.push(v);
            assert(out@ =~= before + cur@);
            i += 1;
        }
        prev = cur;
        pos = pos + 1 + row_len;
    }
    Some(out)
}

fn read_int_param(parms: Option<&Vec<(Vec<u8>, PdfObject)>>, key: &[u8], default: i64) -> (r: i64)
    ensures
        r as int == int_param(opt_dict(parms), key@, default as int),
{
    match parms {
        Some(p) => match dict_lookup(p, key) {
            Some(PdfObject::Integer(n)) => *n,
            _ => default,
        },
        None => default,
    }
}

fn layout(colors: i64, bits: i64, columns: i64) -> (r: Option<(usize, usize)>)
    ensures
        match r {
            Some((row_len, bpp)) => png_layout(colors as int, bits as int, columns as int) == Some(
                (row_len as int, bpp as int),
            ) && row_len < usize::MAX && 1 <= bpp,
            None => png_layout(colors as int, bits as int, columns as int) is None,
        },
{
    if 1 <= colors && colors <= 255 && (bits == 1 || bits == 2 || bits == 4 || bits == 8 || bits
        == 16) && 1 <= columns && columns <= MAX_COLUMNS {
        assert(1 <= colors * bits <= 4080) by (nonlinear_arith)
            requires
                1 <= colors <= 255,
                1 <= bits <= 16,
        ;
        let sample: i64 = colors * bits;
        assert(1 <= sample * columns <= 4080 * 0x10_0000) by (nonlinear_arith)
            requires
                1 <= sample <= 4080,
                1 <= columns <= 0x10_0000,
        ;
        let row_bits: i64 = sample * columns;
        Some((((row_bits + 7) / 8) as usize, ((sample + 7) / 8) as usize))
    } else {
        None
    }
}

fn unpredict(parms: Option<&Vec<(Vec<u8>, PdfObject)>>, data: Vec<u8>) -> (r: Result<
    Vec<u8>,
    ParseError,
>)
    ensures
        bytes_result(r) == unpredicted(opt_dict(parms), data@),
{
    let predictor = read_int_param(parms, "Predictor".as_bytes(), 1);
    if predictor == 1 {
        Ok(data)
    } else if 10 <= predictor && predictor <= 15 {
        let colors = read_int_param(parms, "Colors".as_bytes(), 1);
        let bits = read_int_param(parms, "BitsPerComponent".as_bytes(), 8);
        let columns = read_int_param(parms, "Columns".as_bytes(), 1);
        match layout(colors, bits, columns) {
            Some((row_len, bpp)) => match png_unfilter(data.as_slice(), row_len, bpp) {
                Some(out) => Ok(out),
                None => Err(ParseError::FilterDecodeError),
            },
            None => Err(ParseError::UnsupportedFilter),
        }
    } else {
        Err(ParseError::UnsupportedFilter)
    }
}

/// Completes the flate filter on what the inflation returned: a failed
/// inflation is a `FilterDecodeError`, inflated data has its predictor undone.
pub fn finish_flate(inflated: Option<Vec<u8>>, parms: Option<&Vec<(Vec<u8>, PdfObject)>>) -> (r:
    Result<Vec<u8>, ParseError>)
    ensures
        bytes_result(r) == flate_output(opt_bytes(inflated), opt_dict(parms)),
{
    match inflated {
        Some(data) => unpredict(parms, data),
        None => Err(ParseError::FilterDecodeError),
    }
}

/// Undoes one filter. `FlateDecode`, `ASCIIHexDecode` and `ASCII85Decode`
/// are implemented, under their long and short names; any other name is an
/// `UnsupportedFilter`.
pub fn apply_filter(name: &[u8], parms: Option<&Vec<(Vec<u8>, PdfObject)>>, data: &[u8]) -> (r:
    Result<Vec<u8>, ParseError>)
    ensures
        bytes_result(r) == filtered(name@, opt_dict(parms), data@),
{
    if bytes_eq(name, "FlateDecode".as_bytes()) || bytes_eq(name, "Fl".as_bytes()) {
        finish_flate(zlib_inflate(data, MAX_DECODED), parms)
    } else if bytes_eq(name, "ASCIIHexDecode".as_bytes()) || bytes_eq(name, "AHx".as_bytes()) {
        match hex_decode(data) {
            Some(out) => Ok(out),
            None => Err(ParseError::FilterDecodeError),
        }
    } else if bytes_eq(name, "ASCII85Decode".as_bytes()) || bytes_eq(name, "A85".as_bytes()) {
        match a85_decode(data) {
            Some(out) => Ok(out),
            None => Err(ParseError::FilterDecodeError),
        }
    } else {
        Err(ParseError::UnsupportedFilter)
    }
}

fn parms_at<'a>(parms: Option<&'a PdfObject>, i: usize) -> (r: Option<
    &'a Vec<(Vec<u8>, PdfObject)>,
>)
    ensures
        opt_dict(r) == parms_for(opt_value(parms), i as int),
{
    match parms {
        Some(PdfObject::Dictionary(p)) => if i == 0 {
            Some(p)
        } else {
            None
        },
        Some(PdfObject::Array(a)) => {
            proof {
                lemma_items_view(*a);
            }
            if i < a.len() {
                match &a[i] {
                    PdfObject::Dictionary(p) => Some(p),
                    _ => None,
                }
            } else {
                None
            }
        },
        _ => None,
    }
}

/// Decodes the data of a stream as its dictionary declares.
///
/// Without `/Filter` the data is returned as stored. A filter that is not
/// implemented, or a `/Filter` that is neither a name nor an array of names,
/// gives `UnsupportedFilter`; data that a filter cannot decode gives
/// `FilterDecodeError`.
pub fn decode_stream(dict: &Vec<(Vec<u8>, PdfObject)>, raw: &[u8]) -> (r: Result<
    Vec<u8>,
    ParseError,
>)
    ensures
        bytes_result(r) == decoded(dict_view(*dict), raw@),
{
    let parms = dict_lookup(dict, "DecodeParms".as_bytes());
    match dict_lookup(dict, "Filter".as_bytes()) {
        None => Ok(vstd::slice::slice_to_vec(raw)),
        Some(PdfObject::Null) => Ok(vstd::slice::slice_to_vec(raw)),
        Some(PdfObject::Name(n)) => apply_filter(n.as_slice(), parms_at(parms, 0), raw),
        Some(PdfObject::Array(names)) => {
            let mut cur: Vec<u8> = vstd::slice::slice_to_vec(raw);
            let mut i: usize = 0;
            while i < names.len()
                invariant
                    i <= names.len(),
                    decoded(dict_view(*dict), raw@) == chain_decoded(
                        items_view(*names),
                        opt_value(parms),
                        0,
                        raw@,
                    ),
                    chain_decoded(items_view(*names), opt_value(parms), 0, raw@) == chain_decoded(
                        items_view(*names),
                        opt_value(parms),
                        i as int,
                        cur@,
                    ),
                decreases names.len() - i,
            {
                proof {
                    lemma_items_view(*names);
                }
                match &names[i] {
                    PdfObject::Name(n) => {
                        match apply_filter(n.as_slice(), parms_at(parms, i), cur.as_slice()) {
                            Ok(out) => {
                                cur = out;
                            },
                            Err(e) => {
                                return Err(e);
                            },
                        }
                    },
                    _ => {
                        return Err(ParseError::UnsupportedFilter);
                    },
                }
                i += 1;
            }
            Ok(cur)
        },
        Some(_) => Err(ParseError::UnsupportedFilter),
    }
}

/// The upper-case hexadecimal digit for a value below 16.
pub open spec fn hex_char(v: int) -> u8 {
    if v < 10 {
        (0x30 + v) as u8
    } else {
        (0x41 + v - 10) as u8
    }
}

/// The ASCII hexadecimal encoding of `data`: two digits for each byte, then
/// the end marker `>`.
pub open spec fn hex_encoded(data: Seq<u8>) -> Seq<u8>
    decreases data.len(),
{
    if data.len() == 0 {
        seq![GT]
    } else {
        seq![hex_char(data[0] as int / 16), hex_char(data[0] as int % 16)] + hex_encoded(
            data.drop_first(),
        )
    }
}

/// What the decoder makes of data from `pos` on depends only on the bytes
/// from `pos` on.
proof fn lemma_hex_decoded_suffix(s: Seq<u8>, pos: int, acc: Seq<u8>, pending: Option<u8>)
    requires
        0 <= pos <= s.len(),
    ensures
        hex_decoded(s, pos, acc, pending) == hex_decoded(
            s.subrange(pos, s.len() as int),
            0,
            acc,
            pending,
        ),
    decreases s.len() - pos,
{
    let t = s.subrange(pos, s.len() as int);
    if pos < s.len() {
        assert(t[0] == s[pos]);
        if s[pos] == GT {
        } else {
            let next_acc = if !is_whitespace(s[pos]) && hex_value(s[pos]) is Some
                && pending is Some {
                acc.push((pending->0 * 16 + hex_value(s[pos])->0) as u8)
            } else {
                acc
            };
            let next_pending = if is_whitespace(s[pos]) {
                pending
            } else if pending is Some {
                None
            } else {
                hex_value(s[pos])
            };
            if is_whitespace(s[pos]) || hex_value(s[pos]) is Some {
                lemma_hex_decoded_suffix(s, pos + 1, next_acc, next_pending);
                lemma_hex_decoded_suffix(t, 1, next_acc, next_pending);
                assert(t.subrange(1, t.len() as int) =~= s.subrange(pos + 1, s.len() as int));
            }
        }
    }
}

/// Decoding after encoding gives the data back, behind what was decoded
/// before.
proof fn lemma_hex_round_trip_from(data: Seq<u8>, acc: Seq<u8>)
    ensures
        hex_decoded(hex_encoded(data), 0, acc, None) == Some(acc + data),
    decreases data.len(),
{
    let e = hex_encoded(data);
    if data.len() == 0 {
        assert(acc + data =~= acc);
    } else {
        let d = data[0];
        let hi = d as int / 16;
        let lo = d as int % 16;
        let rest = data.drop_first();
        assert(e[0] == hex_char(hi) && e[1] == hex_char(lo));
        assert(hex_value(hex_char(hi)) == Some(hi as u8));
        assert(hex_value(hex_char(lo)) == Some(lo as u8));
        let acc2 = acc.push(((hi as u8) * 16 + (lo as u8)) as u8);
        assert(acc2 == acc.push(d));
        assert(hex_decoded(e, 0, acc, None) == hex_decoded(e, 1, acc, Some(hi as u8)));
        assert(hex_decoded(e, 1, acc, Some(hi as u8)) == hex_decoded(e, 2, acc2, None));
        lemma_hex_decoded_suffix(e, 2, acc2, None);
        assert(e.subrange(2, e.len() as int) =~= hex_encoded(rest));
        lemma_hex_round_trip_from(rest, acc2);
        assert(acc2 + rest =~= acc + data);
    }
}

/// The ASCII hexadecimal filter undoes its encoding: for data of any length,
/// decoding the encoded data gives the data back.
pub proof fn lemma_hex_round_trip(data: Seq<u8>)
    ensures
        hex_decoded(hex_encoded(data), 0, Seq::empty(), None) == Some(data),
        filtered(ascii("ASCIIHexDecode"), None, hex_encoded(data)) == Ok::<Seq<u8>, ParseError>(
            data,
        ),
{
    lemma_hex_round_trip_from(data, Seq::empty());
    assert(Seq::<u8>::empty() + data =~= data);
    reveal_strlit("ASCIIHexDecode");
    reveal_strlit("FlateDecode");
    reveal_strlit("Fl");
    broadcast use vstd::string::group_string_axioms;

    assert("ASCIIHexDecode".is_ascii() && "FlateDecode".is_ascii() && "Fl".is_ascii());
    assert(ascii("ASCIIHexDecode").len() == 14);
    assert(ascii("FlateDecode").len() == 11);
    assert(ascii("Fl").len() == 2);
}

/// A stream that declares the ASCII hexadecimal filter and stores the
/// encoding of some data decodes to that data; a stream that declares no
/// filter decodes to what it stores.
pub proof fn lemma_stream_round_trip(d: Seq<(Seq<u8>, Value)>, data: Seq<u8>)
    ensures
        dict_get(d, ascii("Filter")) == Some(Value::Name(ascii("ASCIIHexDecode"))) ==> decoded(
            d,
            hex_encoded(data),
        ) == Ok::<Seq<u8>, ParseError>(data),
        dict_get(d, ascii("Filter")) is None ==> decoded(d, data) == Ok::<Seq<u8>, ParseError>(
            data,
        ),
{
    lemma_hex_round_trip(data);
    reveal_strlit("ASCIIHexDecode");
    reveal_strlit("FlateDecode");
    reveal_strlit("Fl");
    broadcast use vstd::string::group_string_axioms;

    assert("ASCIIHexDecode".is_ascii() && "FlateDecode".is_ascii() && "Fl".is_ascii());
    assert(ascii("ASCIIHexDecode").len() == 14);
    assert(ascii("FlateDecode").len() == 11);
    assert(ascii("Fl").len() == 2);
}

} // verus!
