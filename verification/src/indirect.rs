//! Indirect objects: `n g obj ... endobj`, and the data of streams.
use vstd::prelude::*;
use crate::bytes::{
    as_int, ascii, bytes_eq, copy_range, find, find_from, is_eol, lemma_find_from, CR, LF,
};
use crate::error::ParseError;
use crate::lexer::{next_token, token_at, Token, TokenView};
use crate::object::{well_formed, ObjRef, PdfObject, Value};
use crate::parser::{lemma_parse_well_formed, parse_object, parse_value, MAX_NESTING};

verus! {

/// The head of an indirect object: its number and generation and the object
/// itself; for a stream, where its data starts.
#[derive(Debug, PartialEq, Eq)]
pub struct IndirectHead {
    pub id: ObjRef,
    pub object: PdfObject,
    pub data_start: Option<usize>,
}

/// The number and generation that open an indirect object at `pos`, and the
/// position behind the keyword `obj`.
pub open spec fn object_header(s: Seq<u8>, pos: int) -> Option<(ObjRef, int)> {
    match token_at(s, pos) {
        Some((TokenView::Integer(n), q1)) => match token_at(s, q1) {
            Some((TokenView::Integer(g), q2)) => match token_at(s, q2) {
                Some((TokenView::Keyword(k), q3)) => if k == ascii("obj") && 0 <= n <= u32::MAX
                    && 0 <= g <= u16::MAX {
                    Some((ObjRef { number: n as u32, generation: g as u16 }, q3))
                } else {
                    None
                },
                _ => None,
            },
            _ => None,
        },
        _ => None,
    }
}

/// The position behind one end-of-line marker at `p`: CR LF, LF or CR.
pub open spec fn after_eol(s: Seq<u8>, p: int) -> int {
    if 0 <= p && p + 1 < s.len() && s[p] == CR && s[p + 1] == LF {
        p + 2
    } else if 0 <= p < s.len() && is_eol(s[p]) {
        p + 1
    } else {
        p
    }
}

/// Where the data of a stream starts, if the keyword `stream` follows at `p`.
pub open spec fn stream_data_start(s: Seq<u8>, p: int) -> Option<int> {
    match token_at(s, p) {
        Some((TokenView::StreamBegin, q)) => Some(after_eol(s, q)),
        _ => None,
    }
}

/// The indirect object at `pos`: its identity, its value and, for a stream,
/// the start of the data.
pub open spec fn indirect_at(s: Seq<u8>, pos: int) -> Result<
    (ObjRef, Value, Option<int>),
    ParseError,
> {
    match object_header(s, pos) {
        None => Err(ParseError::UnexpectedToken),
        Some((id, q3)) => match parse_value(s, q3, MAX_NESTING as nat) {
            Err(e) => Err(e),
            Ok((v, q4)) => Ok((id, v, stream_data_start(s, q4))),
        },
    }
}

/// The position `e` of `endstream`, less one end-of-line marker before it.
pub open spec fn trim_eol(s: Seq<u8>, start: int, e: int) -> int {
    if e - start >= 2 && s[e - 2] == CR && s[e - 1] == LF {
        e - 2
    } else if e - start >= 1 && is_eol(s[e - 1]) {
        e - 1
    } else {
        e
    }
}

/// The declared length can be relied on: it stays inside the bytes and the
/// keyword `endstream` follows the data.
pub open spec fn length_fits(s: Seq<u8>, start: int, n: int) -> bool {
    0 <= n && start + n <= s.len() && (token_at(s, start + n) matches Some(
        (TokenView::StreamEnd, _),
    ))
}

/// Where the data of the stream that starts at `start` ends. A declared
/// length is honoured where it can be relied on; otherwise the data runs to
/// the first `endstream`, less one end-of-line marker.
pub open spec fn stream_data_end(s: Seq<u8>, start: int, declared: Option<int>) -> Option<int> {
    if declared is Some && length_fits(s, start, declared->0) {
        Some(start + declared->0)
    } else {
        match find_from(s, ascii("endstream"), start) {
            Some(e) => Some(trim_eol(s, start, e)),
            None => None,
        }
    }
}

/// The object made of a parsed value and, for a stream, of its data.
pub open spec fn assemble(
    s: Seq<u8>,
    v: Value,
    data_start: Option<int>,
    declared: Option<int>,
) -> Result<Value, ParseError> {
    match data_start {
        None => Ok(v),
        Some(start) => match v {
            Value::Dictionary(d) => match stream_data_end(s, start, declared) {
                Some(end) => Ok(Value::Stream(d, s.subrange(start, end))),
                None => Err(ParseError::UnexpectedToken),
            },
            _ => Err(ParseError::UnexpectedToken),
        },
    }
}

fn parse_header(buf: &[u8], pos: usize) -> (r: Option<(ObjRef, usize)>)
    ensures
        match r {
            Some((id, q)) => object_header(buf@, pos as int) == Some((id, q as int)) && pos < q
                <= buf.len(),
            None => object_header(buf@, pos as int) is None,
        },
{
    match next_token(buf, pos) {
        Ok((Token::Integer(n), q1)) => match next_token(buf, q1) {
            Ok((Token::Integer(g), q2)) => match next_token(buf, q2) {
                Ok((Token::Keyword(k), q3)) => {
                    if bytes_eq(k.as_slice(), "obj".as_bytes()) && 0 <= n && n <= u32::MAX as i64
                        && 0 <= g && g <= u16::MAX as i64 {
                        Some((ObjRef { number: n as u32, generation: g as u16 }, q3))
                    } else {
                        None
                    }
                },
                _ => None,
            },
            _ => None,
        },
        _ => None,
    }
}

fn skip_eol(buf: &[u8], p: usize) -> (r: usize)
    requires
        p <= buf.len(),
    ensures
        r as int == after_eol(buf@, p as int),
        p <= r <= buf.len(),
{
    let n = buf.len();
    if n - p > 1 && buf[p] == CR && buf[p + 1] == LF {
        p + 2
    } else if p < n && is_eol(buf[p]) {
        p + 1
    } else {
        p
    }
}

/// Parses the head of the indirect object at `pos`.
///
/// `UnexpectedToken` where `pos` does not begin with `n g obj`; otherwise the
/// error of the object parser, or the head. For a stream the data is not read
/// yet: its end may depend on a length stored in another object.
pub fn parse_indirect(buf: &[u8], pos: usize) -> (r: Result<IndirectHead, ParseError>)
    ensures
        match r {
            Ok(h) => indirect_at(buf@, pos as int) == Ok::<(ObjRef, Value, Option<int>), ParseError>(
                (h.id, h.object@, as_int(h.data_start)),
            ) && (h.data_start matches Some(d) ==> d <= buf.len()),
            Err(e) => indirect_at(buf@, pos as int) == Err::<
                (ObjRef, Value, Option<int>),
                ParseError,
            >(e),
        },
{
    let (id, q3) = match parse_header(buf, pos) {
        Some(x) => x,
        None => {
            return Err(ParseError::UnexpectedToken);
        },
    };
    let (object, q4) = match parse_object(buf, q3, MAX_NESTING) {
        Ok(x) => x,
        Err(e) => {
            return Err(e);
        },
    };
    let data_start = match next_token(buf, q4) {
        Ok((Token::StreamBegin, q)) => Some(skip_eol(buf, q)),
        _ => None,
    };
    Ok(IndirectHead { id, object, data_start })
}

fn data_end(buf: &[u8], start: usize, declared: Option<usize>) -> (r: Option<usize>)
    requires
        start <= buf.len(),
    ensures
        match r {
            Some(e) => stream_data_end(buf@, start as int, as_int(declared)) == Some(e as int)
                && start <= e <= buf.len(),
            None => stream_data_end(buf@, start as int, as_int(declared)) is None,
        },
{
    if let Some(n) = declared {
        if n <= buf.len() - start {
            if let Ok((Token::StreamEnd, _)) = next_token(buf, start + n) {
                return Some(start + n);
            }
        }
    }
    proof {
        lemma_find_from(buf@, ascii("endstream"), start as int);
    }
    match find(buf, "endstream".as_bytes(), start) {
        Some(e) => {
            if e - start >= 2 && buf[e - 2] == CR && buf[e - 1] == LF {
                Some(e - 2)
            } else if e - start >= 1 && is_eol(buf[e - 1]) {
                Some(e - 1)
            } else {
                Some(e)
            }
        },
        None => None,
    }
}

/// Completes an indirect object: a plain object stays as it is; the
/// dictionary of a stream gets its data, which ends after the declared length
/// where that can be relied on, else before the first `endstream`.
///
/// `UnexpectedToken` where `stream` follows something other than a
/// dictionary, or the data has no end.
pub fn finish_object(buf: &[u8], head: IndirectHead, declared: Option<usize>) -> (r: Result<
    PdfObject,
    ParseError,
>)
    ensures
        match r {
            Ok(o) => assemble(buf@, head.object@, as_int(head.data_start), as_int(declared))
                == Ok::<Value, ParseError>(o@),
            Err(e) => assemble(buf@, head.object@, as_int(head.data_start), as_int(declared))
                == Err::<Value, ParseError>(e),
        },
{
    let start = match head.data_start {
        None => {
            return Ok(head.object);
        },
        Some(d) => d,
    };
    if start > buf.len() {
        return Err(ParseError::UnexpectedToken);
    }
    match head.object {
        PdfObject::Dictionary(entries) => match data_end(buf, start, declared) {
            Some(end) => Ok(PdfObject::Stream(entries, copy_range(buf, start, end))),
            None => Err(ParseError::UnexpectedToken),
        },
        _ => Err(ParseError::UnexpectedToken),
    }
}

/// The value of an indirect object is well formed, and stays so when it is
/// completed to a stream.
pub proof fn lemma_indirect_well_formed(s: Seq<u8>, pos: int, declared: Option<int>)
    ensures
        indirect_at(s, pos) matches Ok((id, v, data_start)) ==> well_formed(v) && (assemble(
            s,
            v,
            data_start,
            declared,
        ) matches Ok(o) ==> well_formed(o)),
{
    match object_header(s, pos) {
        None => {},
        Some((id, q3)) => {
            lemma_parse_well_formed(s, q3, MAX_NESTING as nat);
        },
    }
}

} // verus!
