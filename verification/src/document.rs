//! Loading objects through the object table and following references.
use vstd::prelude::*;
use crate::bytes::{as_int, ascii};
use crate::error::{ErrorKind, ParseError};
use crate::filter::{decode_stream, decoded};
use crate::indirect::{
    assemble, finish_object, indirect_at, lemma_indirect_well_formed, parse_indirect,
};
use crate::lexer::{next_token, token_at, Token, TokenView};
use crate::object::{
    clone_object, dict_get, dict_lookup, dict_view, well_formed, ObjRef, PdfObject, Value,
};
use crate::parser::{lemma_parse_well_formed, parse_object, parse_value, MAX_NESTING};
use crate::revisions::{resolve_xref, resolved};
use crate::xref::{lookup, table_lookup, XrefEntry, XrefRecord};

verus! {

/// How many references in a row are followed from one to the next.
pub const MAX_CHAIN: usize = 32;

/// The value of a result that holds an object, or its error.
pub open spec fn object_result(r: Result<PdfObject, ParseError>) -> Result<Value, ParseError> {
    match r {
        Ok(o) => Ok(o@),
        Err(e) => Err(e),
    }
}

/// The integer that the object `number` is, where it is stored as a plain
/// integer at an offset: the form in which a stream keeps its length apart.
pub open spec fn integer_at(s: Seq<u8>, records: Seq<XrefRecord>, number: u32) -> Option<int> {
    match table_lookup(records, number) {
        Some(XrefEntry::InUse { offset, generation }) => match indirect_at(s, offset as int) {
            Ok((id, Value::Integer(n), _)) => if id.number == number && 0 <= n <= usize::MAX {
                Some(n)
            } else {
                None
            },
            _ => None,
        },
        _ => None,
    }
}

/// The length that a stream dictionary declares, directly or through a
/// reference to an integer object.
pub open spec fn declared_length(s: Seq<u8>, records: Seq<XrefRecord>, v: Value) -> Option<int> {
    match v {
        Value::Dictionary(d) => match dict_get(d, ascii("Length")) {
            Some(Value::Integer(n)) => if 0 <= n <= usize::MAX {
                Some(n)
            } else {
                None
            },
            Some(Value::Reference(r)) => integer_at(s, records, r.number),
            _ => None,
        },
        _ => None,
    }
}

/// The object `number` as stored at `offset`. An object with another number
/// at that place makes the reference dangling.
pub open spec fn load_at(s: Seq<u8>, records: Seq<XrefRecord>, offset: int, number: u32) -> Result<
    Value,
    ParseError,
> {
    match indirect_at(s, offset) {
        Err(e) => Err(e),
        Ok((id, v, data_start)) => if id.number != number {
            Err(ParseError::DanglingReference)
        } else {
            assemble(s, v, data_start, declared_length(s, records, v))
        },
    }
}

/// The pair of integers with index `k` among the pairs that start at `pos`:
/// in the head of an object stream, an object number and its offset.
pub open spec fn stream_slot(data: Seq<u8>, pos: int, k: int) -> Option<(int, int)>
    decreases k,
{
    match token_at(data, pos) {
        Some((TokenView::Integer(a), q1)) => match token_at(data, q1) {
            Some((TokenView::Integer(b), q2)) => if k <= 0 {
                Some((a, b))
            } else {
                stream_slot(data, q2, k - 1)
            },
            _ => None,
        },
        _ => None,
    }
}

/// The object `number` at `index` of an object stream with dictionary `d` and
/// decoded data `data`.
pub open spec fn object_in_stream(
    d: Seq<(Seq<u8>, Value)>,
    data: Seq<u8>,
    index: u32,
    number: u32,
) -> Result<Value, ParseError> {
    match (dict_get(d, ascii("N")), dict_get(d, ascii("First"))) {
        (Some(Value::Integer(n)), Some(Value::Integer(first))) => if !(index < n) || !(0 <= first
            <= data.len()) {
            Err(ParseError::DanglingReference)
        } else {
            match stream_slot(data, 0, index as int) {
                Some((num, rel)) => if num != number || !(0 <= rel <= data.len() - first) {
                    Err(ParseError::DanglingReference)
                } else {
                    match parse_value(data, first + rel, MAX_NESTING as nat) {
                        Ok((v, _)) => Ok(v),
                        Err(e) => Err(e),
                    }
                },
                None => Err(ParseError::UnexpectedToken),
            }
        },
        _ => Err(ParseError::DanglingReference),
    }
}

/// The object `number` at `index` of the object stream `stream`.
pub open spec fn load_compressed(
    s: Seq<u8>,
    records: Seq<XrefRecord>,
    stream: u32,
    index: u32,
    number: u32,
) -> Result<Value, ParseError> {
    match table_lookup(records, stream) {
        Some(XrefEntry::InUse { offset, generation }) => match load_at(
            s,
            records,
            offset as int,
            stream,
        ) {
            Ok(Value::Stream(d, raw)) => match decoded(d, raw) {
                Ok(data) => object_in_stream(d, data, index, number),
                Err(e) => Err(e),
            },
            Ok(_) => Err(ParseError::DanglingReference),
            Err(e) => Err(e),
        },
        _ => Err(ParseError::DanglingReference),
    }
}

/// The object that the table gives for `number`. An object that the table
/// does not hold, or holds as free, makes the reference dangling.
#[verifier::opaque]
pub open spec fn load(s: Seq<u8>, records: Seq<XrefRecord>, number: u32) -> Result<
    Value,
    ParseError,
> {
    match table_lookup(records, number) {
        Some(XrefEntry::InUse { offset, generation }) => load_at(s, records, offset as int, number),
        Some(XrefEntry::Compressed { stream, index }) => load_compressed(
            s,
            records,
            stream,
            index,
            number,
        ),
        _ => Err(ParseError::DanglingReference),
    }
}

/// The object that `v` stands for: `v` itself unless it is a reference, else
/// what the chain of references from it leads to. A chain that comes back to
/// an object in `visited`, or is longer than `fuel`, is cyclic.
pub open spec fn deref(
    s: Seq<u8>,
    records: Seq<XrefRecord>,
    v: Value,
    fuel: nat,
    visited: Seq<u32>,
) -> Result<Value, ParseError>
    decreases fuel,
{
    match v {
        Value::Reference(r) => if fuel == 0 || visited.contains(r.number) {
            Err(ParseError::CyclicReference)
        } else {
            match load(s, records, r.number) {
                Ok(v2) => deref(s, records, v2, (fuel - 1) as nat, visited.push(r.number)),
                Err(e) => Err(e),
            }
        },
        _ => Ok(v),
    }
}

/// The object that `v` stands for, references followed.
pub open spec fn resolved_value(s: Seq<u8>, records: Seq<XrefRecord>, v: Value) -> Result<
    Value,
    ParseError,
> {
    deref(s, records, v, MAX_CHAIN as nat, Seq::empty())
}

/// An object that is loaded is well formed: no dictionary in it has a key
/// twice.
pub proof fn lemma_load_well_formed(s: Seq<u8>, records: Seq<XrefRecord>, number: u32)
    ensures
        load(s, records, number) matches Ok(v) ==> well_formed(v),
{
    reveal(load);
    match table_lookup(records, number) {
        Some(XrefEntry::InUse { offset, generation }) => {
            lemma_load_at_well_formed(s, records, offset as int, number);
        },
        Some(XrefEntry::Compressed { stream, index }) => {
            match table_lookup(records, stream) {
                Some(XrefEntry::InUse { offset, generation }) => {
                    match load_at(s, records, offset as int, stream) {
                        Ok(Value::Stream(d, raw)) => match decoded(d, raw) {
                            Ok(data) => {
                                match (dict_get(d, ascii("N")), dict_get(d, ascii("First"))) {
                                    (Some(Value::Integer(n)), Some(Value::Integer(first))) => {
                                        match stream_slot(data, 0, index as int) {
                                            Some((num, rel)) => {
                                                lemma_parse_well_formed(
                                                    data,
                                                    first + rel,
                                                    MAX_NESTING as nat,
                                                );
                                            },
                                            None => {},
                                        }
                                    },
                                    _ => {},
                                }
                            },
                            Err(e) => {},
                        },
                        _ => {},
                    }
                },
                _ => {},
            }
        },
        _ => {},
    }
}

proof fn lemma_load_at_well_formed(s: Seq<u8>, records: Seq<XrefRecord>, offset: int, number: u32)
    ensures
        load_at(s, records, offset, number) matches Ok(v) ==> well_formed(v),
{
    match indirect_at(s, offset) {
        Err(e) => {},
        Ok((id, v, data_start)) => {
            lemma_indirect_well_formed(s, offset, declared_length(s, records, v));
        },
    }
}

/// What a well-formed object stands for is well formed.
pub proof fn lemma_deref_well_formed(
    s: Seq<u8>,
    records: Seq<XrefRecord>,
    v: Value,
    fuel: nat,
    visited: Seq<u32>,
)
    requires
        well_formed(v),
    ensures
        deref(s, records, v, fuel, visited) matches Ok(o) ==> well_formed(o),
    decreases fuel,
{
    match v {
        Value::Reference(r) => {
            if !(fuel == 0 || visited.contains(r.number)) {
                lemma_load_well_formed(s, records, r.number);
                match load(s, records, r.number) {
                    Ok(v2) => {
                        lemma_deref_well_formed(
                            s,
                            records,
                            v2,
                            (fuel - 1) as nat,
                            visited.push(r.number),
                        );
                    },
                    Err(e) => {},
                }
            }
        },
        _ => {},
    }
}

fn read_integer_at(buf: &[u8], records: &Vec<XrefRecord>, number: u32) -> (r: Option<usize>)
    ensures
        as_int(r) == integer_at(buf@, records@, number),
{
    match lookup(records, number) {
        Some(XrefEntry::InUse { offset, generation }) => match parse_indirect(buf, offset) {
            Ok(head) => match head.object {
                PdfObject::Integer(n) => {
                    if head.id.number == number && 0 <= n && n as u64 <= usize::MAX as u64 {
                        Some(n as usize)
                    } else {
                        None
                    }
                },
                _ => None,
            },
            Err(_) => None,
        },
        _ => None,
    }
}

fn read_declared_length(buf: &[u8], records: &Vec<XrefRecord>, object: &PdfObject) -> (r: Option<
    usize,
>)
    ensures
        as_int(r) == declared_length(buf@, records@, object@),
{
    match object {
        PdfObject::Dictionary(d) => match dict_lookup(d, "Length".as_bytes()) {
            Some(PdfObject::Integer(n)) => {
                if 0 <= *n && *n as u64 <= usize::MAX as u64 {
                    Some(*n as usize)
                } else {
                    None
                }
            },
            Some(PdfObject::Reference(r)) => read_integer_at(buf, records, r.number),
            _ => None,
        },
        _ => None,
    }
}

fn read_at(buf: &[u8], records: &Vec<XrefRecord>, offset: usize, number: u32) -> (r: Result<
    PdfObject,
    ParseError,
>)
    ensures
        object_result(r) == load_at(buf@, records@, offset as int, number),
{
    let head = match parse_indirect(buf, offset) {
        Ok(h) => h,
        Err(e) => {
            return Err(e);
        },
    };
    if head.id.number != number {
        return Err(ParseError::DanglingReference);
    }
    let declared = read_declared_length(buf, records, &head.object);
    finish_object(buf, head, declared)
}

fn read_slot(data: &[u8], index: u32) -> (r: Option<(i64, i64)>)
    ensures
        match r {
            Some((a, b)) => stream_slot(data@, 0, index as int) == Some((a as int, b as int)),
            None => stream_slot(data@, 0, index as int) is None,
        },
{
    let mut pos: usize = 0;
    let mut k: u32 = index;
    loop
        invariant
            stream_slot(data@, 0, index as int) == stream_slot(data@, pos as int, k as int),
        decreases k,
    {
        match next_token(data, pos) {
            Ok((Token::Integer(a), q1)) => match next_token(data, q1) {
                Ok((Token::Integer(b), q2)) => {
                    if k == 0 {
                        return Some((a, b));
                    }
                    pos = q2;
                    k -= 1;
                },
                _ => {
                    return None;
                },
            },
            _ => {
                return None;
            },
        }
    }
}

fn read_in_stream(dict: &Vec<(Vec<u8>, PdfObject)>, data: &[u8], index: u32, number: u32) -> (r:
    Result<PdfObject, ParseError>)
    ensures
        object_result(r) == object_in_stream(dict_view(*dict), data@, index, number),
{
    match (dict_lookup(dict, "N".as_bytes()), dict_lookup(dict, "First".as_bytes())) {
        (Some(PdfObject::Integer(n)), Some(PdfObject::Integer(first))) => {
            if !((index as i64) < *n) || !(0 <= *first && *first as u64 <= data.len() as u64) {
                return Err(ParseError::DanglingReference);
            }
            let first: usize = *first as usize;
            match read_slot(data, index) {
                Some((num, rel)) => {
                    if num != number as i64 || !(0 <= rel && rel as u64 <= (data.len()
                        - first) as u64) {
                        return Err(ParseError::DanglingReference);
                    }
                    match parse_object(data, first + rel as usize, MAX_NESTING) {
                        Ok((o, _)) => Ok(o),
                        Err(e) => Err(e),
                    }
                },
                None => Err(ParseError::UnexpectedToken),
            }
        },
        _ => Err(ParseError::DanglingReference),
    }
}

fn read_compressed(
    buf: &[u8],
    records: &Vec<XrefRecord>,
    stream: u32,
    index: u32,
    number: u32,
) -> (r: Result<PdfObject, ParseError>)
    ensures
        object_result(r) == load_compressed(buf@, records@, stream, index, number),
{
    match lookup(records, stream) {
        Some(XrefEntry::InUse { offset, generation }) => match read_at(
            buf,
            records,
            offset,
            stream,
        ) {
            Ok(PdfObject::Stream(d, raw)) => match decode_stream(&d, raw.as_slice()) {
                Ok(data) => read_in_stream(&d, data.as_slice(), index, number),
                Err(e) => Err(e),
            },
            Ok(_) => Err(ParseError::DanglingReference),
            Err(e) => Err(e),
        },
        _ => Err(ParseError::DanglingReference),
    }
}

/// Loads the object with the given number.
///
/// The table says where it is: at an offset of the file, or at an index of an
/// object stream, which is then decoded. `DanglingReference` where the table
/// has no place for the number, or another object is found there. A stream is
/// returned with its data as stored.
pub fn load_object(buf: &[u8], records: &Vec<XrefRecord>, number: u32) -> (r: Result<
    PdfObject,
    ParseError,
>)
    ensures
        object_result(r) == load(buf@, records@, number),
        r matches Ok(o) ==> well_formed(o@),
{
    proof {
        lemma_load_well_formed(buf@, records@, number);
    }
    reveal(load);
    match lookup(records, number) {
        Some(XrefEntry::InUse { offset, generation }) => read_at(buf, records, offset, number),
        Some(XrefEntry::Compressed { stream, index }) => read_compressed(
            buf,
            records,
            stream,
            index,
            number,
        ),
        _ => Err(ParseError::DanglingReference),
    }
}

fn seen(visited: &Vec<u32>, number: u32) -> (r: bool)
    ensures
        r == visited@.contains(number),
{
    let mut i: usize = 0;
    while i < visited.len()
        invariant
            i <= visited.len(),
            forall|k: int| 0 <= k < i ==> visited@[k] != number,
        decreases visited.len() - i,
    {
        if visited[i] == number {
            return true;
        }
        i += 1;
    }
    false
}

/// Follows a reference to the object it stands for.
///
/// Where the object loaded is a reference again, that one is followed too.
/// `CyclicReference` where the chain comes back to an object it has visited
/// or is longer than `MAX_CHAIN`; the errors of `load_object` otherwise.
pub fn resolve_reference(buf: &[u8], records: &Vec<XrefRecord>, target: ObjRef) -> (r: Result<
    PdfObject,
    ParseError,
>)
    ensures
        object_result(r) == resolved_value(buf@, records@, Value::Reference(target)),
        r matches Ok(o) ==> well_formed(o@),
{
    proof {
        lemma_deref_well_formed(
            buf@,
            records@,
            Value::Reference(target),
            MAX_CHAIN as nat,
            Seq::empty(),
        );
    }
    let mut visited: Vec<u32> = Vec::new();
    let mut current: ObjRef = target;
    let mut fuel: usize = MAX_CHAIN;
    loop
        invariant
            resolved_value(buf@, records@, Value::Reference(target)) == deref(
                buf@,
                records@,
                Value::Reference(current),
                fuel as nat,
                visited@,
            ),
        decreases fuel,
    {
        if fuel == 0 || seen(&visited, current.number) {
            return Err(ParseError::CyclicReference);
        }
        match load_object(buf, records, current.number) {
            Ok(PdfObject::Reference(next)) => {
                visited.push(current.number);
                current = next;
                fuel -= 1;
            },
            Ok(o) => {
                assert(deref(
                    buf@,
                    records@,
                    o@,
                    (fuel - 1) as nat,
                    visited@.push(current.number),
                ) == Ok::<Value, ParseError>(o@));
                return Ok(o);
            },
            Err(e) => {
                return Err(e);
            },
        }
    }
}

/// The object that `object` stands for: a copy of it unless it is a
/// reference, else what `resolve_reference` gives for it.
pub fn resolve(buf: &[u8], records: &Vec<XrefRecord>, object: &PdfObject) -> (r: Result<
    PdfObject,
    ParseError,
>)
    ensures
        object_result(r) == resolved_value(buf@, records@, object@),
        well_formed(object@) ==> (r matches Ok(o) ==> well_formed(o@)),
{
    proof {
        if well_formed(object@) {
            lemma_deref_well_formed(buf@, records@, object@, MAX_CHAIN as nat, Seq::empty());
        }
    }
    match object {
        PdfObject::Reference(target) => resolve_reference(buf, records, *target),
        _ => Ok(clone_object(object)),
    }
}

/// A parsed document: its object table, the reference to its catalog and
/// the catalog itself. The bytes stay with the caller and are handed to each
/// function that reads objects.
#[derive(Debug, PartialEq, Eq)]
pub struct Document {
    /// The records of all revisions, those of the latest revision first.
    pub records: Vec<XrefRecord>,
    /// The reference that the trailer gives under `/Root`.
    pub root: ObjRef,
    /// The catalog dictionary, which `root` leads to.
    pub catalog: Vec<(Vec<u8>, PdfObject)>,
}

/// The mathematical value of a document.
pub struct DocumentView {
    pub records: Seq<XrefRecord>,
    pub root: ObjRef,
    pub catalog: Seq<(Seq<u8>, Value)>,
}

impl View for Document {
    type V = DocumentView;

    open spec fn view(&self) -> DocumentView {
        DocumentView { records: self.records@, root: self.root, catalog: dict_view(self.catalog) }
    }
}

/// The reference to the catalog that a trailer gives.
pub open spec fn root_of(trailer: Seq<(Seq<u8>, Value)>) -> Option<ObjRef> {
    match dict_get(trailer, ascii("Root")) {
        Some(Value::Reference(r)) => Some(r),
        _ => None,
    }
}

/// The catalog that `root` leads to. A root that leads to no dictionary
/// shows that the object table is wrong.
pub open spec fn catalog_of(s: Seq<u8>, records: Seq<XrefRecord>, root: ObjRef) -> Result<
    Seq<(Seq<u8>, Value)>,
    ErrorKind,
> {
    match resolved_value(s, records, Value::Reference(root)) {
        Ok(Value::Dictionary(c)) => Ok(c),
        Err(ParseError::CyclicReference) => Err(ErrorKind::CyclicReference),
        _ => Err(ErrorKind::CorruptXref),
    }
}

/// The document that the bytes hold: the object table of all revisions, the
/// root of the latest trailer and the catalog.
#[verifier::opaque]
pub open spec fn opened(s: Seq<u8>) -> Result<DocumentView, ErrorKind> {
    match resolved(s) {
        Err(e) => Err(e),
        Ok((records, trailer)) => match root_of(trailer) {
            None => Err(ErrorKind::MissingTrailer),
            Some(root) => match catalog_of(s, records, root) {
                Ok(catalog) => Ok(DocumentView { records, root, catalog }),
                Err(e) => Err(e),
            },
        },
    }
}

impl Document {
    /// Parses the cross-reference data of the file and loads the catalog.
    ///
    /// The errors of `resolve_xref`; `MissingTrailer` where the latest trailer
    /// names no root; `CorruptXref` where the root leads to no dictionary;
    /// `CyclicReference` where it leads back to itself.
    pub fn open(buf: &[u8]) -> (r: Result<Document, ErrorKind>)
        ensures
            match r {
                Ok(doc) => opened(buf@) == Ok::<DocumentView, ErrorKind>(doc@),
                Err(e) => opened(buf@) == Err::<DocumentView, ErrorKind>(e),
            },
    {
        reveal(opened);
        let (records, trailer) = match resolve_xref(buf) {
            Ok(x) => x,
            Err(e) => {
                return Err(e);
            },
        };
        let root = match dict_lookup(&trailer, "Root".as_bytes()) {
            Some(PdfObject::Reference(r)) => *r,
            _ => {
                return Err(ErrorKind::MissingTrailer);
            },
        };
        match resolve_reference(buf, &records, root) {
            Ok(PdfObject::Dictionary(catalog)) => Ok(Document { records, root, catalog }),
            Err(ParseError::CyclicReference) => Err(ErrorKind::CyclicReference),
            _ => Err(ErrorKind::CorruptXref),
        }
    }
}

} // verus!
