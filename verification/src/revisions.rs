//! The chain of revisions: from `startxref` through every cross-reference
//! section of the file to one object table.
use vstd::prelude::*;
use crate::bytes::{as_int, ascii, bytes_eq, rfind, rfind_from};
use crate::error::ErrorKind;
use crate::filter::{decode_stream, decoded};
use crate::indirect::{assemble, finish_object, indirect_at, parse_indirect};
use crate::lexer::{next_token, token_at, Token, TokenView};
use crate::object::{dict_get, dict_lookup, dict_view, PdfObject, Value};
use crate::parser::{parse_object, parse_value, MAX_NESTING};
use crate::xref::{
    lemma_later_revision_wins, read_subsections, table_lookup, table_subsections, XrefRecord,
};
use crate::xref_stream::{read_xref_stream, xref_stream_records};

verus! {

/// How many earlier revisions are followed from the latest one.
pub const MAX_REVISIONS: usize = 256;

/// A cross-reference section: its records and its trailer dictionary.
pub type SectionView = (Seq<XrefRecord>, Seq<(Seq<u8>, Value)>);

/// The values of a section that was read, or its error.
pub open spec fn section_view(
    r: Result<(Vec<XrefRecord>, Vec<(Vec<u8>, PdfObject)>), ErrorKind>,
) -> Result<SectionView, ErrorKind> {
    match r {
        Ok((records, trailer)) => Ok((records@, dict_view(trailer))),
        Err(e) => Err(e),
    }
}

/// The offset that follows the last `startxref` of the file.
pub open spec fn startxref_offset(s: Seq<u8>) -> Option<int> {
    let kw = ascii("startxref");
    match rfind_from(s, kw, s.len() - kw.len()) {
        Some(i) => match token_at(s, i + kw.len()) {
            Some((TokenView::Integer(off), _)) => if 0 <= off <= usize::MAX {
                Some(off)
            } else {
                None
            },
            _ => None,
        },
        None => None,
    }
}

/// An entry of a dictionary that is a plain integer fit for an offset or a
/// length.
pub open spec fn offset_entry(d: Seq<(Seq<u8>, Value)>, key: Seq<u8>) -> Option<int> {
    match dict_get(d, key) {
        Some(Value::Integer(n)) => if 0 <= n <= usize::MAX {
            Some(n)
        } else {
            None
        },
        _ => None,
    }
}

/// The length that a stream dictionary states itself, not through a
/// reference.
pub open spec fn direct_length(v: Value) -> Option<int> {
    match v {
        Value::Dictionary(d) => offset_entry(d, ascii("Length")),
        _ => None,
    }
}

/// The section that a cross-reference stream at `offset` holds. Its own
/// dictionary serves as the trailer. The stream is read without any object
/// table: its length must be stated directly, or its data runs to
/// `endstream`.
#[verifier::opaque]
pub open spec fn stream_section(s: Seq<u8>, offset: int) -> Result<SectionView, ErrorKind> {
    match indirect_at(s, offset) {
        Err(_) => Err(ErrorKind::MissingTrailer),
        Ok((id, v, data_start)) => match assemble(s, v, data_start, direct_length(v)) {
            Ok(Value::Stream(d, raw)) => match decoded(d, raw) {
                Ok(data) => match xref_stream_records(d, data) {
                    Some(records) => Ok((records, d)),
                    None => Err(ErrorKind::CorruptXref),
                },
                Err(_) => Err(ErrorKind::CorruptXref),
            },
            _ => Err(ErrorKind::MissingTrailer),
        },
    }
}

/// The section that a cross-reference table holds, from behind its keyword
/// `xref`: the subsections, the keyword `trailer` and the trailer dictionary.
#[verifier::opaque]
pub open spec fn classic_section(s: Seq<u8>, pos: int) -> Result<SectionView, ErrorKind> {
    match table_subsections(s, pos, Seq::empty()) {
        None => Err(ErrorKind::CorruptXref),
        Some((records, p)) => match parse_value(s, p, MAX_NESTING as nat) {
            Ok((Value::Dictionary(d), _)) => Ok((records, d)),
            _ => Err(ErrorKind::MissingTrailer),
        },
    }
}

/// The cross-reference section at `offset`, a table or a stream.
#[verifier::opaque]
pub open spec fn section_at(s: Seq<u8>, offset: int) -> Result<SectionView, ErrorKind> {
    match token_at(s, offset) {
        Some((TokenView::Keyword(k), q1)) => if k == ascii("xref") {
            classic_section(s, q1)
        } else {
            Err(ErrorKind::MissingTrailer)
        },
        Some((TokenView::Integer(_), _)) => stream_section(s, offset),
        _ => Err(ErrorKind::MissingTrailer),
    }
}

/// The records `acc` followed by those of the cross-reference stream that the
/// trailer of a hybrid file names with `/XRefStm`, if it names one that can be
/// read.
pub open spec fn with_hybrid(s: Seq<u8>, trailer: Seq<(Seq<u8>, Value)>, acc: Seq<XrefRecord>) -> Seq<
    XrefRecord,
> {
    match offset_entry(trailer, ascii("XRefStm")) {
        Some(x) => match stream_section(s, x) {
            Ok((records, _)) => acc + records,
            Err(_) => acc,
        },
        None => acc,
    }
}

/// The records `acc` followed by those of the earlier revisions, from the
/// section at `prev` on along the `/Prev` links, at most `fuel` sections.
pub open spec fn follow(s: Seq<u8>, prev: Option<int>, fuel: nat, acc: Seq<XrefRecord>) -> Result<
    Seq<XrefRecord>,
    ErrorKind,
>
    decreases fuel,
{
    match prev {
        None => Ok(acc),
        Some(p) => if fuel == 0 {
            Err(ErrorKind::CorruptXref)
        } else {
            match section_at(s, p) {
                Err(e) => Err(e),
                Ok((records, t)) => follow(
                    s,
                    offset_entry(t, ascii("Prev")),
                    (fuel - 1) as nat,
                    with_hybrid(s, t, acc + records),
                ),
            }
        },
    }
}

/// The object table of the file and the trailer of its latest revision.
///
/// The records of the latest revision come first, then those of each earlier
/// one in turn, so that `table_lookup` finds the latest entry of an object.
pub open spec fn resolved(s: Seq<u8>) -> Result<SectionView, ErrorKind> {
    match startxref_offset(s) {
        None => Err(ErrorKind::MissingTrailer),
        Some(off) => match section_at(s, off) {
            Err(e) => Err(e),
            Ok((records, t)) => match follow(
                s,
                offset_entry(t, ascii("Prev")),
                MAX_REVISIONS as nat,
                with_hybrid(s, t, records),
            ) {
                Ok(all) => Ok((all, t)),
                Err(e) => Err(e),
            },
        },
    }
}

fn find_startxref(buf: &[u8]) -> (r: Option<usize>)
    ensures
        as_int(r) == startxref_offset(buf@),
{
    let kw = "startxref".as_bytes();
    match rfind(buf, kw) {
        Some(i) => {
            match next_token(buf, i + kw.len()) {
                Ok((Token::Integer(off), _)) => {
                    if 0 <= off && off as u64 <= usize::MAX as u64 {
                        Some(off as usize)
                    } else {
                        None
                    }
                },
                _ => None,
            }
        },
        None => None,
    }
}

fn read_offset_entry(dict: &Vec<(Vec<u8>, PdfObject)>, key: &[u8]) -> (r: Option<usize>)
    ensures
        as_int(r) == offset_entry(dict_view(*dict), key@),
{
    match dict_lookup(dict, key) {
        Some(PdfObject::Integer(n)) => {
            if 0 <= *n && *n as u64 <= usize::MAX as u64 {
                Some(*n as usize)
            } else {
                None
            }
        },
        _ => None,
    }
}

/// The length that a stream dictionary states directly.
pub fn read_direct_length(object: &PdfObject) -> (r: Option<usize>)
    ensures
        as_int(r) == direct_length(object@),
{
    match object {
        PdfObject::Dictionary(d) => read_offset_entry(d, "Length".as_bytes()),
        _ => None,
    }
}

fn read_stream_section(buf: &[u8], offset: usize) -> (r: Result<
    (Vec<XrefRecord>, Vec<(Vec<u8>, PdfObject)>),
    ErrorKind,
>)
    ensures
        section_view(r) == stream_section(buf@, offset as int),
{
    reveal(stream_section);
    let head = match parse_indirect(buf, offset) {
        Ok(h) => h,
        Err(_) => {
            return Err(ErrorKind::MissingTrailer);
        },
    };
    let declared = read_direct_length(&head.object);
    match finish_object(buf, head, declared) {
        Ok(PdfObject::Stream(d, raw)) => match decode_stream(&d, raw.as_slice()) {
            Ok(data) => match read_xref_stream(&d, data.as_slice()) {
                Some(records) => Ok((records, d)),
                None => Err(ErrorKind::CorruptXref),
            },
            Err(_) => Err(ErrorKind::CorruptXref),
        },
        _ => Err(ErrorKind::MissingTrailer),
    }
}

fn read_classic_section(buf: &[u8], pos: usize) -> (r: Result<
    (Vec<XrefRecord>, Vec<(Vec<u8>, PdfObject)>),
    ErrorKind,
>)
    ensures
        section_view(r) == classic_section(buf@, pos as int),
{
    reveal(classic_section);
    match read_subsections(buf, pos) {
        None => Err(ErrorKind::CorruptXref),
        Some((records, p)) => match parse_object(buf, p, MAX_NESTING) {
            Ok((PdfObject::Dictionary(d), _)) => Ok((records, d)),
            _ => Err(ErrorKind::MissingTrailer),
        },
    }
}

/// Reads the cross-reference section at `offset`.
///
/// `MissingTrailer` where there is neither a table nor a stream with a
/// trailer dictionary at the offset, `CorruptXref` where the entries do not
/// parse.
pub fn read_section(buf: &[u8], offset: usize) -> (r: Result<
    (Vec<XrefRecord>, Vec<(Vec<u8>, PdfObject)>),
    ErrorKind,
>)
    ensures
        section_view(r) == section_at(buf@, offset as int),
{
    reveal(section_at);
    match next_token(buf, offset) {
        Ok((Token::Keyword(k), q1)) => {
            if bytes_eq(k.as_slice(), "xref".as_bytes()) {
                read_classic_section(buf, q1)
            } else {
                Err(ErrorKind::MissingTrailer)
            }
        },
        Ok((Token::Integer(_), _)) => read_stream_section(buf, offset),
        _ => Err(ErrorKind::MissingTrailer),
    }
}

fn add_hybrid(buf: &[u8], trailer: &Vec<(Vec<u8>, PdfObject)>, acc: &mut Vec<XrefRecord>)
    ensures
        final(acc)@ == with_hybrid(buf@, dict_view(*trailer), old(acc)@),
{
    match read_offset_entry(trailer, "XRefStm".as_bytes()) {
        Some(x) => match read_stream_section(buf, x) {
            Ok((records, _)) => {
                let mut records = records;
                acc.append(&mut records);
            },
            Err(_) => {},
        },
        None => {},
    }
}

/// Resolves the cross-reference data of the whole file.
///
/// Starts at the offset after the last `startxref`, reads that section, then
/// the stream that a hybrid trailer names, then follows `/Prev` from section
/// to section. An object that a later revision mentions keeps the entry given
/// there. `MissingTrailer` where `startxref` or a trailer is missing,
/// `CorruptXref` where entries do not parse or the chain is longer than
/// `MAX_REVISIONS`.
pub fn resolve_xref(buf: &[u8]) -> (r: Result<
    (Vec<XrefRecord>, Vec<(Vec<u8>, PdfObject)>),
    ErrorKind,
>)
    ensures
        section_view(r) == resolved(buf@),
{
    let off = match find_startxref(buf) {
        Some(off) => off,
        None => {
            return Err(ErrorKind::MissingTrailer);
        },
    };
    let (mut acc, trailer) = match read_section(buf, off) {
        Ok(x) => x,
        Err(e) => {
            return Err(e);
        },
    };
    add_hybrid(buf, &trailer, &mut acc);
    let mut prev = read_offset_entry(&trailer, "Prev".as_bytes());
    let mut fuel: usize = MAX_REVISIONS;
    let ghost start_prev = as_int(prev);
    let ghost start_acc = acc@;
    while prev.is_some()
        invariant
            resolved(buf@) == match follow(buf@, start_prev, MAX_REVISIONS as nat, start_acc) {
                Ok(all) => Ok::<SectionView, ErrorKind>((all, dict_view(trailer))),
                Err(e) => Err::<SectionView, ErrorKind>(e),
            },
            follow(buf@, start_prev, MAX_REVISIONS as nat, start_acc) == follow(
                buf@,
                as_int(prev),
                fuel as nat,
                acc@,
            ),
        decreases fuel,
    {
        if fuel == 0 {
            return Err(ErrorKind::CorruptXref);
        }
        match read_section(buf, prev.unwrap()) {
            Err(e) => {
                return Err(e);
            },
            Ok((records, t)) => {
                let mut records = records;
                acc.append(&mut records);
                add_hybrid(buf, &t, &mut acc);
                prev = read_offset_entry(&t, "Prev".as_bytes());
                fuel -= 1;
            },
        }
    }
    Ok((acc, trailer))
}

/// `a` stands at the start of `b`.
pub open spec fn is_prefix(a: Seq<XrefRecord>, b: Seq<XrefRecord>) -> bool {
    a.len() <= b.len() && b.subrange(0, a.len() as int) == a
}

/// An entry that the table has for an object stays what it is when records
/// are added behind it.
pub proof fn lemma_prefix_keeps_entries(a: Seq<XrefRecord>, b: Seq<XrefRecord>, number: u32)
    requires
        is_prefix(a, b),
        table_lookup(a, number) is Some,
    ensures
        table_lookup(b, number) == table_lookup(a, number),
{
    let rest = b.subrange(a.len() as int, b.len() as int);
    assert(b =~= a + rest);
    lemma_later_revision_wins(a, rest, number);
}

/// Following the earlier revisions only adds records behind those that were
/// read before.
pub proof fn lemma_follow_extends(s: Seq<u8>, prev: Option<int>, fuel: nat, acc: Seq<XrefRecord>)
    requires
        follow(s, prev, fuel, acc) is Ok,
    ensures
        is_prefix(acc, follow(s, prev, fuel, acc)->Ok_0),
    decreases fuel,
{
    match prev {
        None => {
            assert(acc.subrange(0, acc.len() as int) =~= acc);
        },
        Some(p) => {
            let (records, t) = section_at(s, p)->Ok_0;
            let next = with_hybrid(s, t, acc + records);
            lemma_follow_extends(s, offset_entry(t, ascii("Prev")), (fuel - 1) as nat, next);
            let all = follow(s, prev, fuel, acc)->Ok_0;
            assert(is_prefix(acc + records, next)) by {
                assert(next.subrange(0, (acc + records).len() as int) =~= acc + records);
            }
            assert(all.subrange(0, acc.len() as int) =~= acc) by {
                assert(forall|i: int| 0 <= i < acc.len() ==> all[i] == next[i]) by {
                    assert(forall|i: int|
                        0 <= i < next.len() ==> all.subrange(0, next.len() as int)[i] == all[i]);
                }
                assert(forall|i: int| 0 <= i < acc.len() ==> next[i] == (acc + records)[i]) by {
                    assert(forall|i: int|
                        0 <= i < (acc + records).len() ==> next.subrange(
                            0,
                            (acc + records).len() as int,
                        )[i] == next[i]);
                }
            }
        },
    }
}

/// An object that the latest revision of a file mentions is found where that
/// revision puts it: no earlier revision overrides it.
pub proof fn lemma_latest_revision_wins(s: Seq<u8>, number: u32)
    requires
        resolved(s) is Ok,
        table_lookup(section_at(s, startxref_offset(s)->0)->Ok_0.0, number) is Some,
    ensures
        table_lookup(resolved(s)->Ok_0.0, number) == table_lookup(
            section_at(s, startxref_offset(s)->0)->Ok_0.0,
            number,
        ),
{
    let off = startxref_offset(s)->0;
    let (latest, t) = section_at(s, off)->Ok_0;
    let first = with_hybrid(s, t, latest);
    let prev = offset_entry(t, ascii("Prev"));
    lemma_follow_extends(s, prev, MAX_REVISIONS as nat, first);
    let all = follow(s, prev, MAX_REVISIONS as nat, first)->Ok_0;
    assert(is_prefix(latest, first)) by {
        assert(first.subrange(0, latest.len() as int) =~= latest);
    }
    assert(is_prefix(latest, all)) by {
        assert(forall|i: int|
            0 <= i < first.len() ==> all.subrange(0, first.len() as int)[i] == all[i]);
        assert(forall|i: int|
            0 <= i < latest.len() ==> first.subrange(0, latest.len() as int)[i] == first[i]);
        assert(all.subrange(0, latest.len() as int) =~= latest);
    }
    lemma_prefix_keeps_entries(latest, all, number);
}

/// The only errors of the cross-reference data are `MissingTrailer` and
/// `CorruptXref`.
pub open spec fn is_xref_error(e: ErrorKind) -> bool {
    e == ErrorKind::MissingTrailer || e == ErrorKind::CorruptXref
}

proof fn lemma_section_errors(s: Seq<u8>, offset: int)
    ensures
        section_at(s, offset) matches Err(e) ==> is_xref_error(e),
{
    reveal(section_at);
    reveal(classic_section);
    reveal(stream_section);
}

proof fn lemma_follow_errors(s: Seq<u8>, prev: Option<int>, fuel: nat, acc: Seq<XrefRecord>)
    ensures
        follow(s, prev, fuel, acc) matches Err(e) ==> is_xref_error(e),
    decreases fuel,
{
    if prev is Some && fuel > 0 {
        lemma_section_errors(s, prev->0);
        match section_at(s, prev->0) {
            Err(e) => {},
            Ok((records, t)) => {
                lemma_follow_errors(
                    s,
                    offset_entry(t, ascii("Prev")),
                    (fuel - 1) as nat,
                    with_hybrid(s, t, acc + records),
                );
            },
        }
    }
}

/// Resolving the cross-reference data fails with `MissingTrailer` or
/// `CorruptXref` and with no other error.
pub proof fn lemma_resolved_errors(s: Seq<u8>)
    ensures
        resolved(s) matches Err(e) ==> is_xref_error(e),
{
    match startxref_offset(s) {
        None => {},
        Some(off) => {
            lemma_section_errors(s, off);
            match section_at(s, off) {
                Err(e) => {},
                Ok((records, t)) => {
                    lemma_follow_errors(
                        s,
                        offset_entry(t, ascii("Prev")),
                        MAX_REVISIONS as nat,
                        with_hybrid(s, t, records),
                    );
                },
            }
        },
    }
}

} // verus!
