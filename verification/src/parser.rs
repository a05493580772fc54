//! The object parser: from tokens to objects, nested to a bounded depth.
use vstd::prelude::*;
use crate::bytes::{ascii, bytes_eq};
use crate::error::ParseError;
use crate::lexer::{lemma_token_past_end, next_token, token_at, Token, TokenView};
use crate::object::{
    dict_insert, dict_lookup, dict_view, items_view, keys_unique, lemma_dict_insert, well_formed,
    ObjRef, PdfObject, Value,
};

verus! {

/// How deep arrays and dictionaries may be nested inside one object.
pub const MAX_NESTING: usize = 64;

/// The reference that the integer `n`, already read, begins: `n`, a
/// generation number and the keyword `R`, with the position behind `R`.
pub open spec fn reference_at(s: Seq<u8>, n: int, q1: int) -> Option<(ObjRef, int)> {
    match token_at(s, q1) {
        Some((TokenView::Integer(g), q2)) => match token_at(s, q2) {
            Some((TokenView::Keyword(k), q3)) => if k == ascii("R") && 0 <= n <= u32::MAX && 0
                <= g <= u16::MAX {
                Some((ObjRef { number: n as u32, generation: g as u16 }, q3))
            } else {
                None
            },
            _ => None,
        },
        _ => None,
    }
}

/// The object that the keyword stands for: `true`, `false` or `null`.
pub open spec fn keyword_value(k: Seq<u8>) -> Option<Value> {
    if k == ascii("true") {
        Some(Value::Boolean(true))
    } else if k == ascii("false") {
        Some(Value::Boolean(false))
    } else if k == ascii("null") {
        Some(Value::Null)
    } else {
        None
    }
}

/// The object that begins with the token `tok`, which ended at `q1`, and the
/// position behind the object. Arrays and dictionaries may be nested `depth`
/// deep. References are kept as references.
pub open spec fn value_from_token(s: Seq<u8>, tok: TokenView, q1: int, depth: nat) -> Result<
    (Value, int),
    ParseError,
>
    decreases depth, s.len() - q1, 0int,
{
    match tok {
        TokenView::Integer(n) => match reference_at(s, n, q1) {
            Some((r, q3)) => Ok((Value::Reference(r), q3)),
            None => Ok((Value::Integer(n), q1)),
        },
        TokenView::Real(b) => Ok((Value::Real(b), q1)),
        TokenView::LiteralString(b) => Ok((Value::String(b), q1)),
        TokenView::HexString(b) => Ok((Value::String(b), q1)),
        TokenView::Name(b) => Ok((Value::Name(b), q1)),
        TokenView::Keyword(k) => match keyword_value(k) {
            Some(v) => Ok((v, q1)),
            None => Err(ParseError::UnexpectedToken),
        },
        TokenView::ArrayOpen => if depth == 0 {
            Err(ParseError::NestingTooDeep)
        } else {
            match parse_items(s, q1, (depth - 1) as nat, Seq::empty()) {
                Ok((items, q)) => Ok((Value::Array(items), q)),
                Err(e) => Err(e),
            }
        },
        TokenView::DictOpen => if depth == 0 {
            Err(ParseError::NestingTooDeep)
        } else {
            match parse_entries(s, q1, (depth - 1) as nat, Seq::empty()) {
                Ok((entries, q)) => Ok((Value::Dictionary(entries), q)),
                Err(e) => Err(e),
            }
        },
        _ => Err(ParseError::UnexpectedToken),
    }
}

/// The rest of an array from `pos`, with the items `acc` read so far, and the
/// position behind its closing bracket.
pub open spec fn parse_items(s: Seq<u8>, pos: int, depth: nat, acc: Seq<Value>) -> Result<
    (Seq<Value>, int),
    ParseError,
>
    decreases depth, s.len() - pos, 1int,
{
    match token_at(s, pos) {
        None => Err(ParseError::MalformedToken),
        Some((TokenView::ArrayClose, q1)) => Ok((acc, q1)),
        Some((tok, q1)) => if !(pos <= q1 <= s.len()) {
            Err(ParseError::UnexpectedToken)
        } else {
            match value_from_token(s, tok, q1, depth) {
                Err(e) => Err(e),
                Ok((v, q2)) => if pos < q2 <= s.len() {
                    parse_items(s, q2, depth, acc.push(v))
                } else {
                    Err(ParseError::UnexpectedToken)
                },
            }
        },
    }
}

/// The rest of a dictionary from `pos`, with the entries `acc` read so far,
/// and the position behind its closing `>>`. Of two entries with one key the
/// first stands.
pub open spec fn parse_entries(
    s: Seq<u8>,
    pos: int,
    depth: nat,
    acc: Seq<(Seq<u8>, Value)>,
) -> Result<(Seq<(Seq<u8>, Value)>, int), ParseError>
    decreases depth, s.len() - pos, 2int,
{
    match token_at(s, pos) {
        None => Err(ParseError::MalformedToken),
        Some((TokenView::DictClose, q1)) => Ok((acc, q1)),
        Some((TokenView::Name(key), q1)) => if !(pos < q1 <= s.len()) {
            Err(ParseError::UnexpectedToken)
        } else {
            match parse_value(s, q1, depth) {
                Err(e) => Err(e),
                Ok((v, q2)) => if pos < q2 <= s.len() {
                    parse_entries(s, q2, depth, dict_insert(acc, key, v))
                } else {
                    Err(ParseError::UnexpectedToken)
                },
            }
        },
        Some(_) => Err(ParseError::UnexpectedToken),
    }
}

/// The object that starts at the first token at or after `pos`, and the
/// position behind it.
pub open spec fn parse_value(s: Seq<u8>, pos: int, depth: nat) -> Result<(Value, int), ParseError>
    decreases depth, s.len() - pos, 1int,
{
    match token_at(s, pos) {
        None => Err(ParseError::MalformedToken),
        Some((tok, q1)) => if !(pos <= q1 <= s.len()) {
            Err(ParseError::UnexpectedToken)
        } else {
            value_from_token(s, tok, q1, depth)
        },
    }
}

/// Every item is well formed.
pub open spec fn items_well_formed(items: Seq<Value>) -> bool {
    forall|i: int| 0 <= i < items.len() ==> well_formed(#[trigger] items[i])
}

/// No key occurs twice and every value is well formed.
pub open spec fn entries_well_formed(d: Seq<(Seq<u8>, Value)>) -> bool {
    keys_unique(d) && forall|i: int| 0 <= i < d.len() ==> well_formed((#[trigger] d[i]).1)
}

proof fn lemma_token_value_well_formed(s: Seq<u8>, tok: TokenView, q1: int, depth: nat)
    ensures
        value_from_token(s, tok, q1, depth) matches Ok((v, _)) ==> well_formed(v),
    decreases depth, s.len() - q1, 0int,
{
    match tok {
        TokenView::ArrayOpen => {
            if depth > 0 {
                lemma_items_well_formed(s, q1, (depth - 1) as nat, Seq::empty());
            }
        },
        TokenView::DictOpen => {
            if depth > 0 {
                lemma_entries_well_formed(s, q1, (depth - 1) as nat, Seq::empty());
            }
        },
        _ => {},
    }
}

proof fn lemma_items_well_formed(s: Seq<u8>, pos: int, depth: nat, acc: Seq<Value>)
    requires
        items_well_formed(acc),
    ensures
        parse_items(s, pos, depth, acc) matches Ok((items, _)) ==> items_well_formed(items),
    decreases depth, s.len() - pos, 1int,
{
    match token_at(s, pos) {
        None => {},
        Some((TokenView::ArrayClose, q1)) => {},
        Some((tok, q1)) => {
            if pos <= q1 <= s.len() {
                lemma_token_value_well_formed(s, tok, q1, depth);
                match value_from_token(s, tok, q1, depth) {
                    Err(e) => {},
                    Ok((v, q2)) => {
                        if pos < q2 <= s.len() {
                            lemma_items_well_formed(s, q2, depth, acc.push(v));
                        }
                    },
                }
            }
        },
    }
}

proof fn lemma_entries_well_formed(
    s: Seq<u8>,
    pos: int,
    depth: nat,
    acc: Seq<(Seq<u8>, Value)>,
)
    requires
        entries_well_formed(acc),
    ensures
        parse_entries(s, pos, depth, acc) matches Ok((d, _)) ==> entries_well_formed(d),
    decreases depth, s.len() - pos, 2int,
{
    match token_at(s, pos) {
        Some((TokenView::Name(key), q1)) => {
            if pos < q1 <= s.len() {
                lemma_parse_well_formed(s, q1, depth);
                match parse_value(s, q1, depth) {
                    Err(e) => {},
                    Ok((v, q2)) => {
                        if pos < q2 <= s.len() {
                            lemma_dict_insert(acc, key, v);
                            lemma_entries_well_formed(s, q2, depth, dict_insert(acc, key, v));
                        }
                    },
                }
            }
        },
        _ => {},
    }
}

/// An object that the parser returns is well formed: no dictionary in it has
/// a key twice.
pub proof fn lemma_parse_well_formed(s: Seq<u8>, pos: int, depth: nat)
    ensures
        parse_value(s, pos, depth) matches Ok((v, _)) ==> well_formed(v),
    decreases depth, s.len() - pos, 1int,
{
    match token_at(s, pos) {
        None => {},
        Some((tok, q1)) => {
            if pos <= q1 <= s.len() {
                lemma_token_value_well_formed(s, tok, q1, depth);
            }
        },
    }
}

fn try_reference(buf: &[u8], n: i64, q1: usize) -> (r: Option<(ObjRef, usize)>)
    ensures
        match r {
            Some((rf, q)) => reference_at(buf@, n as int, q1 as int) == Some((rf, q as int)) && q1
                < q <= buf.len(),
            None => reference_at(buf@, n as int, q1 as int) is None,
        },
{
    if n < 0 || n > u32::MAX as i64 {
        return None;
    }
    match next_token(buf, q1) {
        Ok((Token::Integer(g), q2)) => {
            if g < 0 || g > u16::MAX as i64 {
                return None;
            }
            match next_token(buf, q2) {
                Ok((Token::Keyword(k), q3)) => {
                    if bytes_eq(k.as_slice(), "R".as_bytes()) {
                        Some((ObjRef { number: n as u32, generation: g as u16 }, q3))
                    } else {
                        None
                    }
                },
                _ => None,
            }
        },
        _ => None,
    }
}

fn keyword_object(k: &[u8]) -> (r: Option<PdfObject>)
    ensures
        match r {
            Some(o) => keyword_value(k@) == Some(o@),
            None => keyword_value(k@) is None,
        },
{
    if bytes_eq(k, "true".as_bytes()) {
        Some(PdfObject::Boolean(true))
    } else if bytes_eq(k, "false".as_bytes()) {
        Some(PdfObject::Boolean(false))
    } else if bytes_eq(k, "null".as_bytes()) {
        Some(PdfObject::Null)
    } else {
        None
    }
}

/// Adds an entry at the end, unless the key is there already.
pub fn insert_entry(entries: &mut Vec<(Vec<u8>, PdfObject)>, key: Vec<u8>, value: PdfObject)
    ensures
        dict_view(*final(entries)) == dict_insert(dict_view(*old(entries)), key@, value@),
{
    if dict_lookup(entries, key.as_slice()).is_none() {
        entries.push((key, value));
        assert(dict_view(*entries) =~= dict_view(*old(entries)).push((key@, value@)));
    }
}

fn parse_from_token(buf: &[u8], tok: Token, q1: usize, depth: usize) -> (r: Result<
    (PdfObject, usize),
    ParseError,
>)
    requires
        q1 <= buf.len(),
    ensures
        match r {
            Ok((o, q)) => value_from_token(buf@, tok@, q1 as int, depth as nat) == Ok::<
                (Value, int),
                ParseError,
            >((o@, q as int)) && q1 <= q <= buf.len(),
            Err(e) => value_from_token(buf@, tok@, q1 as int, depth as nat) == Err::<
                (Value, int),
                ParseError,
            >(e),
        },
    decreases depth, 0int,
{
    match tok {
        Token::Integer(n) => match try_reference(buf, n, q1) {
            Some((r, q3)) => Ok((PdfObject::Reference(r), q3)),
            None => Ok((PdfObject::Integer(n), q1)),
        },
        Token::Real(b) => Ok((PdfObject::Real(b), q1)),
        Token::LiteralString(b) => Ok((PdfObject::String(b), q1)),
        Token::HexString(b) => Ok((PdfObject::String(b), q1)),
        Token::Name(b) => Ok((PdfObject::Name(b), q1)),
        Token::Keyword(k) => match keyword_object(k.as_slice()) {
            Some(o) => Ok((o, q1)),
            None => Err(ParseError::UnexpectedToken),
        },
        Token::ArrayOpen => {
            if depth == 0 {
                return Err(ParseError::NestingTooDeep);
            }
            match parse_array(buf, q1, depth - 1) {
                Ok((items, q)) => Ok((PdfObject::Array(items), q)),
                Err(e) => Err(e),
            }
        },
        Token::DictOpen => {
            if depth == 0 {
                return Err(ParseError::NestingTooDeep);
            }
            match parse_dictionary(buf, q1, depth - 1) {
                Ok((entries, q)) => Ok((PdfObject::Dictionary(entries), q)),
                Err(e) => Err(e),
            }
        },
        _ => Err(ParseError::UnexpectedToken),
    }
}

fn parse_array(buf: &[u8], pos: usize, depth: usize) -> (r: Result<
    (Vec<PdfObject>, usize),
    ParseError,
>)
    requires
        pos <= buf.len(),
    ensures
        match r {
            Ok((items, q)) => parse_items(buf@, pos as int, depth as nat, Seq::empty()) == Ok::<
                (Seq<Value>, int),
                ParseError,
            >((items_view(items), q as int)) && pos < q <= buf.len(),
            Err(e) => parse_items(buf@, pos as int, depth as nat, Seq::empty()) == Err::<
                (Seq<Value>, int),
                ParseError,
            >(e),
        },
    decreases depth, 2int,
{
    let mut items: Vec<PdfObject> = Vec::new();
    let mut i: usize = pos;
    assert(items_view(items) =~= Seq::empty());
    loop
        invariant
            pos <= i <= buf.len(),
            parse_items(buf@, pos as int, depth as nat, Seq::empty()) == parse_items(
                buf@,
                i as int,
                depth as nat,
                items_view(items),
            ),
        decreases buf.len() - i,
    {
        let (tok, q1) = match next_token(buf, i) {
            Ok(x) => x,
            Err(e) => {
                return Err(e);
            },
        };
        if let Token::ArrayClose = tok {
            return Ok((items, q1));
        }
        if let Token::Eof = tok {
            return Err(ParseError::UnexpectedToken);
        }
        match parse_from_token(buf, tok, q1, depth) {
            Err(e) => {
                return Err(e);
            },
            Ok((v, q2)) => {
                let ghost before = items_view(items);
                items.push(v);
                assert(items_view(items) =~= before.push(v@));
                i = q2;
            },
        }
    }
}

/// The entries of the dictionary whose `<<` ended at `pos`, and the position
/// behind its `>>`.
pub fn parse_dictionary(buf: &[u8], pos: usize, depth: usize) -> (r: Result<
    (Vec<(Vec<u8>, PdfObject)>, usize),
    ParseError,
>)
    ensures
        match r {
            Ok((entries, q)) => parse_entries(buf@, pos as int, depth as nat, Seq::empty()) == Ok::<
                (Seq<(Seq<u8>, Value)>, int),
                ParseError,
            >((dict_view(entries), q as int)) && pos < q <= buf.len(),
            Err(e) => parse_entries(buf@, pos as int, depth as nat, Seq::empty()) == Err::<
                (Seq<(Seq<u8>, Value)>, int),
                ParseError,
            >(e),
        },
    decreases depth, 2int,
{
    if pos > buf.len() {
        proof {
            lemma_token_past_end(buf@, pos as int);
        }
        return Err(ParseError::UnexpectedToken);
    }
    let mut entries: Vec<(Vec<u8>, PdfObject)> = Vec::new();
    let mut i: usize = pos;
    assert(dict_view(entries) =~= Seq::empty());
    loop
        invariant
            pos <= i <= buf.len(),
            parse_entries(buf@, pos as int, depth as nat, Seq::empty()) == parse_entries(
                buf@,
                i as int,
                depth as nat,
                dict_view(entries),
            ),
        decreases buf.len() - i,
    {
        let (tok, q1) = match next_token(buf, i) {
            Ok(x) => x,
            Err(e) => {
                return Err(e);
            },
        };
        match tok {
            Token::DictClose => {
                return Ok((entries, q1));
            },
            Token::Name(key) => {
                match parse_object(buf, q1, depth) {
                    Err(e) => {
                        return Err(e);
                    },
                    Ok((v, q2)) => {
                        insert_entry(&mut entries, key, v);
                        i = q2;
                    },
                }
            },
            _ => {
                return Err(ParseError::UnexpectedToken);
            },
        }
    }
}

/// Parses the object that starts at the first token at or after `pos`.
///
/// Arrays and dictionaries may be nested `depth` deep; one level more gives
/// `NestingTooDeep`. A malformed token gives `MalformedToken`, a token that
/// begins no object `UnexpectedToken`. Indirect references are returned as
/// references and not followed.
pub fn parse_object(buf: &[u8], pos: usize, depth: usize) -> (r: Result<
    (PdfObject, usize),
    ParseError,
>)
    ensures
        match r {
            Ok((o, q)) => parse_value(buf@, pos as int, depth as nat) == Ok::<
                (Value, int),
                ParseError,
            >((o@, q as int)) && pos < q <= buf.len(),
            Err(e) => parse_value(buf@, pos as int, depth as nat) == Err::<
                (Value, int),
                ParseError,
            >(e),
        },
        r matches Ok((o, _)) ==> well_formed(o@),
    decreases depth, 1int,
{
    proof {
        lemma_parse_well_formed(buf@, pos as int, depth as nat);
    }
    let (tok, q1) = match next_token(buf, pos) {
        Ok(x) => x,
        Err(e) => {
            return Err(e);
        },
    };
    if let Token::Eof = tok {
        return Err(ParseError::UnexpectedToken);
    }
    parse_from_token(buf, tok, q1, depth)
}

} // verus!
