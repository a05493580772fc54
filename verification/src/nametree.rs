//! The name tree of embedded files: every file specification that the tree
//! holds, in traversal order.
use vstd::prelude::*;
use crate::bytes::ascii;
use crate::document::{resolve, resolved_value};
use crate::error::{ErrorKind, ParseError};
use crate::object::{
    dict_get, dict_lookup, dict_view, items_view, lemma_items_view, ObjRef, PdfObject, Value,
};
use crate::strings::{decode_text, text_of};
use crate::xref::XrefRecord;

verus! {

/// How many levels of child nodes are followed below the root of the tree.
pub const MAX_TREE_DEPTH: usize = 32;

/// How many child nodes are visited in all.
pub const MAX_TREE_NODES: usize = 65536;

/// A file attached to the document.
#[derive(Debug, PartialEq, Eq)]
pub struct EmbeddedFile {
    /// The key under which the name tree holds the file.
    pub key: Vec<u8>,
    /// The file name of the file specification, as UTF-8: `/UF` where it has
    /// one, else `/F`, else the key.
    pub filename: Vec<u8>,
    /// The stream that holds the file, where the specification names one.
    pub stream: Option<ObjRef>,
}

/// The mathematical value of an embedded file.
pub struct FileView {
    pub key: Seq<u8>,
    pub filename: Seq<u8>,
    pub stream: Option<ObjRef>,
}

impl View for EmbeddedFile {
    type V = FileView;

    open spec fn view(&self) -> FileView {
        FileView { key: self.key@, filename: self.filename@, stream: self.stream }
    }
}

/// The values of a list of embedded files.
pub open spec fn files_view(files: Vec<EmbeddedFile>) -> Seq<FileView> {
    Seq::new(files@.len(), |i: int| files@[i]@)
}

/// What a listing step returns: the files so far and the nodes that may still
/// be visited.
pub type Walked = (Seq<FileView>, nat);

/// The object that `v` stands for, or `None` where it cannot be had. Only a
/// cycle of references is an error.
pub open spec fn resolved_or_absent(s: Seq<u8>, records: Seq<XrefRecord>, v: Value) -> Result<
    Option<Value>,
    ErrorKind,
> {
    match resolved_value(s, records, v) {
        Ok(x) => Ok(Some(x)),
        Err(ParseError::CyclicReference) => Err(ErrorKind::CyclicReference),
        Err(_) => Ok(None),
    }
}

/// The object that the entry `key` of `d` stands for, or `None` where `d` has
/// no such entry or it cannot be had.
pub open spec fn fetched(
    s: Seq<u8>,
    records: Seq<XrefRecord>,
    d: Seq<(Seq<u8>, Value)>,
    key: Seq<u8>,
) -> Result<Option<Value>, ErrorKind> {
    match dict_get(d, key) {
        Some(v) => resolved_or_absent(s, records, v),
        None => Ok(None),
    }
}

/// The file name of a file specification, as UTF-8: the Unicode name `/UF`
/// is preferred over the legacy `/F`; without either, the key of the name
/// tree serves.
pub open spec fn filename_of(fs: Seq<(Seq<u8>, Value)>, key: Seq<u8>) -> Seq<u8> {
    match dict_get(fs, ascii("UF")) {
        Some(Value::String(b)) => text_of(b),
        _ => match dict_get(fs, ascii("F")) {
            Some(Value::String(b)) => text_of(b),
            _ => text_of(key),
        },
    }
}

/// The stream that the `/EF` dictionary `e` names: under `/F`, else `/UF`.
pub open spec fn ef_reference(e: Seq<(Seq<u8>, Value)>) -> Option<ObjRef> {
    match dict_get(e, ascii("F")) {
        Some(Value::Reference(r)) => Some(r),
        _ => match dict_get(e, ascii("UF")) {
            Some(Value::Reference(r)) => Some(r),
            _ => None,
        },
    }
}

/// The stream of the file specification `fs`, if it names one.
pub open spec fn stream_of(s: Seq<u8>, records: Seq<XrefRecord>, fs: Seq<(Seq<u8>, Value)>) -> Result<
    Option<ObjRef>,
    ErrorKind,
> {
    match fetched(s, records, fs, ascii("EF")) {
        Err(e) => Err(e),
        Ok(Some(Value::Dictionary(e))) => Ok(ef_reference(e)),
        Ok(_) => Ok(None),
    }
}

/// The embedded file that a key and its value in a leaf stand for. A value
/// that is no file specification still gives an entry, under its key.
pub open spec fn file_of(s: Seq<u8>, records: Seq<XrefRecord>, key: Seq<u8>, value: Value) -> Result<
    FileView,
    ErrorKind,
> {
    match resolved_or_absent(s, records, value) {
        Err(e) => Err(e),
        Ok(Some(Value::Dictionary(fs))) => match stream_of(s, records, fs) {
            Err(e) => Err(e),
            Ok(stream) => Ok(FileView { key, filename: filename_of(fs, key), stream }),
        },
        Ok(_) => Ok(FileView { key, filename: text_of(key), stream: None }),
    }
}

/// The files of the pairs of a leaf from index `i` on, after `acc`. A pair
/// whose key is no string is passed over, and so is a last item without a
/// partner.
pub open spec fn leaf_files(
    s: Seq<u8>,
    records: Seq<XrefRecord>,
    names: Seq<Value>,
    i: int,
    acc: Seq<FileView>,
) -> Result<Seq<FileView>, ErrorKind>
    decreases names.len() - i,
{
    if i < 0 || i + 1 >= names.len() {
        Ok(acc)
    } else {
        match names[i] {
            Value::String(key) => match file_of(s, records, key, names[i + 1]) {
                Ok(f) => leaf_files(s, records, names, i + 2, acc.push(f)),
                Err(e) => Err(e),
            },
            _ => leaf_files(s, records, names, i + 2, acc),
        }
    }
}

/// The files of the node `node` and of all nodes below it, after `acc`:
/// first the pairs of its own `/Names`, then its `/Kids` in order. `depth`
/// levels may still be descended and `budget` child nodes visited; a tree
/// that needs more is too deep.
pub open spec fn walk_node(
    s: Seq<u8>,
    records: Seq<XrefRecord>,
    node: Seq<(Seq<u8>, Value)>,
    depth: nat,
    budget: nat,
    acc: Seq<FileView>,
) -> Result<Walked, ErrorKind>
    decreases 2 * depth + 1, 0int,
{
    match fetched(s, records, node, ascii("Names")) {
        Err(e) => Err(e),
        Ok(names) => match (match names {
            Some(Value::Array(a)) => leaf_files(s, records, a, 0, acc),
            _ => Ok(acc),
        }) {
            Err(e) => Err(e),
            Ok(acc1) => match fetched(s, records, node, ascii("Kids")) {
                Err(e) => Err(e),
                Ok(Some(Value::Array(kids))) => walk_kids(s, records, kids, 0, depth, budget, acc1),
                Ok(_) => Ok((acc1, budget)),
            },
        },
    }
}

/// The files of the child nodes from index `i` on, after `acc`. A child that
/// cannot be had or is no dictionary is passed over.
pub open spec fn walk_kids(
    s: Seq<u8>,
    records: Seq<XrefRecord>,
    kids: Seq<Value>,
    i: int,
    depth: nat,
    budget: nat,
    acc: Seq<FileView>,
) -> Result<Walked, ErrorKind>
    decreases 2 * depth, kids.len() - i,
{
    if i < 0 || i >= kids.len() {
        Ok((acc, budget))
    } else if depth == 0 || budget == 0 {
        Err(ErrorKind::TreeTooDeep)
    } else {
        match resolved_or_absent(s, records, kids[i]) {
            Err(e) => Err(e),
            Ok(Some(Value::Dictionary(child))) => match walk_node(
                s,
                records,
                child,
                (depth - 1) as nat,
                (budget - 1) as nat,
                acc,
            ) {
                Ok((acc2, left)) => walk_kids(s, records, kids, i + 1, depth, left, acc2),
                Err(e) => Err(e),
            },
            Ok(_) => walk_kids(s, records, kids, i + 1, depth, (budget - 1) as nat, acc),
        }
    }
}

/// The embedded files of a document with the given catalog: the name tree
/// under `/Names` `/EmbeddedFiles`, walked in full. A catalog without that
/// tree has no embedded files.
pub open spec fn embedded_files(
    s: Seq<u8>,
    records: Seq<XrefRecord>,
    catalog: Seq<(Seq<u8>, Value)>,
) -> Result<Seq<FileView>, ErrorKind> {
    match fetched(s, records, catalog, ascii("Names")) {
        Err(e) => Err(e),
        Ok(Some(Value::Dictionary(names))) => match fetched(
            s,
            records,
            names,
            ascii("EmbeddedFiles"),
        ) {
            Err(e) => Err(e),
            Ok(Some(Value::Dictionary(root))) => match walk_node(
                s,
                records,
                root,
                MAX_TREE_DEPTH as nat,
                MAX_TREE_NODES as nat,
                Seq::empty(),
            ) {
                Ok((files, _)) => Ok(files),
                Err(e) => Err(e),
            },
            Ok(_) => Err(ErrorKind::NoEmbeddedFiles),
        },
        Ok(_) => Err(ErrorKind::NoEmbeddedFiles),
    }
}

/// The value of an optional object that was fetched, or its error.
pub open spec fn fetched_view(r: Result<Option<PdfObject>, ErrorKind>) -> Result<
    Option<Value>,
    ErrorKind,
> {
    match r {
        Ok(Some(o)) => Ok(Some(o@)),
        Ok(None) => Ok(None),
        Err(e) => Err(e),
    }
}

/// Resolves an object, passing over what cannot be had.
pub fn resolve_lenient(buf: &[u8], records: &Vec<XrefRecord>, object: &PdfObject) -> (r: Result<
    Option<PdfObject>,
    ErrorKind,
>)
    ensures
        fetched_view(r) == resolved_or_absent(buf@, records@, object@),
{
    match resolve(buf, records, object) {
        Ok(o) => Ok(Some(o)),
        Err(ParseError::CyclicReference) => Err(ErrorKind::CyclicReference),
        Err(_) => Ok(None),
    }
}

/// Resolves the entry of a dictionary, passing over what cannot be had.
pub fn fetch(
    buf: &[u8],
    records: &Vec<XrefRecord>,
    dict: &Vec<(Vec<u8>, PdfObject)>,
    key: &[u8],
) -> (r: Result<Option<PdfObject>, ErrorKind>)
    ensures
        fetched_view(r) == fetched(buf@, records@, dict_view(*dict), key@),
{
    match dict_lookup(dict, key) {
        Some(v) => resolve_lenient(buf, records, v),
        None => Ok(None),
    }
}

fn read_filename(fs: &Vec<(Vec<u8>, PdfObject)>, key: &[u8]) -> (r: Vec<u8>)
    ensures
        r@ == filename_of(dict_view(*fs), key@),
{
    match dict_lookup(fs, "UF".as_bytes()) {
        Some(PdfObject::String(b)) => decode_text(b.as_slice()),
        _ => match dict_lookup(fs, "F".as_bytes()) {
            Some(PdfObject::String(b)) => decode_text(b.as_slice()),
            _ => decode_text(key),
        },
    }
}

fn read_ef_reference(e: &Vec<(Vec<u8>, PdfObject)>) -> (r: Option<ObjRef>)
    ensures
        r == ef_reference(dict_view(*e)),
{
    match dict_lookup(e, "F".as_bytes()) {
        Some(PdfObject::Reference(r)) => Some(*r),
        _ => match dict_lookup(e, "UF".as_bytes()) {
            Some(PdfObject::Reference(r)) => Some(*r),
            _ => None,
        },
    }
}

fn read_stream_of(buf: &[u8], records: &Vec<XrefRecord>, fs: &Vec<(Vec<u8>, PdfObject)>) -> (r:
    Result<Option<ObjRef>, ErrorKind>)
    ensures
        r == stream_of(buf@, records@, dict_view(*fs)),
{
    match fetch(buf, records, fs, "EF".as_bytes()) {
        Err(e) => Err(e),
        Ok(Some(PdfObject::Dictionary(e))) => Ok(read_ef_reference(&e)),
        Ok(_) => Ok(None),
    }
}

fn read_file(buf: &[u8], records: &Vec<XrefRecord>, key: &[u8], value: &PdfObject) -> (r: Result<
    EmbeddedFile,
    ErrorKind,
>)
    ensures
        match r {
            Ok(f) => file_of(buf@, records@, key@, value@) == Ok::<FileView, ErrorKind>(f@),
            Err(e) => file_of(buf@, records@, key@, value@) == Err::<FileView, ErrorKind>(e),
        },
{
    match resolve_lenient(buf, records, value) {
        Err(e) => Err(e),
        Ok(Some(PdfObject::Dictionary(fs))) => match read_stream_of(buf, records, &fs) {
            Err(e) => Err(e),
            Ok(stream) => Ok(
                EmbeddedFile {
                    key: vstd::slice::slice_to_vec(key),
                    filename: read_filename(&fs, key),
                    stream,
                },
            ),
        },
        Ok(_) => Ok(
            EmbeddedFile {
                key: vstd::slice::slice_to_vec(key),
                filename: decode_text(key),
                stream: None,
            },
        ),
    }
}

fn read_leaf(
    buf: &[u8],
    records: &Vec<XrefRecord>,
    names: &Vec<PdfObject>,
    acc: Vec<EmbeddedFile>,
) -> (r: Result<Vec<EmbeddedFile>, ErrorKind>)
    ensures
        match r {
            Ok(files) => leaf_files(buf@, records@, items_view(*names), 0, files_view(acc)) == Ok::<
                Seq<FileView>,
                ErrorKind,
            >(files_view(files)),
            Err(e) => leaf_files(buf@, records@, items_view(*names), 0, files_view(acc)) == Err::<
                Seq<FileView>,
                ErrorKind,
            >(e),
        },
{
    let mut out = acc;
    let mut i: usize = 0;
    proof {
        lemma_items_view(*names);
    }
    while names.len() - i >= 2
        invariant
            i <= names.len(),
            items_view(*names).len() == names.len(),
            forall|k: int| 0 <= k < names.len() ==> #[trigger] items_view(*names)[k] == names[k]@,
            leaf_files(buf@, records@, items_view(*names), 0, files_view(acc)) == leaf_files(
                buf@,
                records@,
                items_view(*names),
                i as int,
                files_view(out),
            ),
        decreases names.len() - i,
    {
        match &names[i] {
            PdfObject::String(key) => match read_file(buf, records, key.as_slice(), &names[i + 1]) {
                Ok(f) => {
                    let ghost before = files_view(out);
                    out.push(f);
                    assert(files_view(out) =~= before.push(f@));
                },
                Err(e) => {
                    return Err(e);
                },
            },
            _ => {},
        }
        i += 2;
    }
    Ok(out)
}

/// The files and the budget of a listing step, or its error.
pub open spec fn walked_view(r: Result<(Vec<EmbeddedFile>, usize), ErrorKind>) -> Result<
    Walked,
    ErrorKind,
> {
    match r {
        Ok((files, left)) => Ok((files_view(files), left as nat)),
        Err(e) => Err(e),
    }
}

fn walk(
    buf: &[u8],
    records: &Vec<XrefRecord>,
    node: &Vec<(Vec<u8>, PdfObject)>,
    depth: usize,
    budget: usize,
    acc: Vec<EmbeddedFile>,
) -> (r: Result<(Vec<EmbeddedFile>, usize), ErrorKind>)
    ensures
        walked_view(r) == walk_node(
            buf@,
            records@,
            dict_view(*node),
            depth as nat,
            budget as nat,
            files_view(acc),
        ),
    decreases depth,
{
    let names = match fetch(buf, records, node, "Names".as_bytes()) {
        Ok(n) => n,
        Err(e) => {
            return Err(e);
        },
    };
    let mut out = match names {
        Some(PdfObject::Array(a)) => match read_leaf(buf, records, &a, acc) {
            Ok(files) => files,
            Err(e) => {
                return Err(e);
            },
        },
        _ => acc,
    };
    let kids = match fetch(buf, records, node, "Kids".as_bytes()) {
        Ok(Some(PdfObject::Array(kids))) => kids,
        Ok(_) => {
            return Ok((out, budget));
        },
        Err(e) => {
            return Err(e);
        },
    };
    proof {
        lemma_items_view(kids);
    }
    let ghost acc1 = files_view(out);
    let mut left: usize = budget;
    let mut i: usize = 0;
    while i < kids.len()
        invariant
            i <= kids.len(),
            items_view(kids).len() == kids.len(),
            forall|k: int| 0 <= k < kids.len() ==> #[trigger] items_view(kids)[k] == kids[k]@,
            walk_node(
                buf@,
                records@,
                dict_view(*node),
                depth as nat,
                budget as nat,
                files_view(acc),
            ) == walk_kids(buf@, records@, items_view(kids), 0, depth as nat, budget as nat, acc1),
            walk_kids(buf@, records@, items_view(kids), 0, depth as nat, budget as nat, acc1)
                == walk_kids(
                buf@,
                records@,
                items_view(kids),
                i as int,
                depth as nat,
                left as nat,
                files_view(out),
            ),
        decreases kids.len() - i,
    {
        if depth == 0 || left == 0 {
            return Err(ErrorKind::TreeTooDeep);
        }
        match resolve_lenient(buf, records, &kids[i]) {
            Err(e) => {
                return Err(e);
            },
            Ok(Some(PdfObject::Dictionary(child))) => {
                match walk(buf, records, &child, depth - 1, left - 1, out) {
                    Ok((files, rest)) => {
                        out = files;
                        left = rest;
                    },
                    Err(e) => {
                        return Err(e);
                    },
                }
            },
            Ok(_) => {
                left -= 1;
            },
        }
        i += 1;
    }
    Ok((out, left))
}

/// Lists the embedded files of a document, given its catalog.
///
/// The whole name tree under `/Names` `/EmbeddedFiles` is walked, whatever
/// its key ranges or the order of its keys say, and the files are returned in
/// the order in which they are met. `NoEmbeddedFiles` where the catalog has
/// no such tree; `TreeTooDeep` where the tree goes deeper than
/// `MAX_TREE_DEPTH` levels or has more than `MAX_TREE_NODES` child nodes, as
/// every tree with a cycle does; `CyclicReference` where a chain of references
/// comes back to itself.
pub fn list_embedded_files(
    buf: &[u8],
    records: &Vec<XrefRecord>,
    catalog: &Vec<(Vec<u8>, PdfObject)>,
) -> (r: Result<Vec<EmbeddedFile>, ErrorKind>)
    ensures
        match r {
            Ok(files) => embedded_files(buf@, records@, dict_view(*catalog)) == Ok::<
                Seq<FileView>,
                ErrorKind,
            >(files_view(files)),
            Err(e) => embedded_files(buf@, records@, dict_view(*catalog)) == Err::<
                Seq<FileView>,
                ErrorKind,
            >(e),
        },
{
    let names = match fetch(buf, records, catalog, "Names".as_bytes()) {
        Ok(Some(PdfObject::Dictionary(names))) => names,
        Ok(_) => {
            return Err(ErrorKind::NoEmbeddedFiles);
        },
        Err(e) => {
            return Err(e);
        },
    };
    let root = match fetch(buf, records, &names, "EmbeddedFiles".as_bytes()) {
        Ok(Some(PdfObject::Dictionary(root))) => root,
        Ok(_) => {
            return Err(ErrorKind::NoEmbeddedFiles);
        },
        Err(e) => {
            return Err(e);
        },
    };
    let start: Vec<EmbeddedFile> = Vec::new();
    assert(files_view(start) =~= Seq::empty());
    match walk(buf, records, &root, MAX_TREE_DEPTH, MAX_TREE_NODES, start) {
        Ok((files, _)) => Ok(files),
        Err(e) => Err(e),
    }
}

/// `child` is the child node at index `i` of `parent`.
pub open spec fn kid_at(
    s: Seq<u8>,
    records: Seq<XrefRecord>,
    parent: Seq<(Seq<u8>, Value)>,
    child: Seq<(Seq<u8>, Value)>,
    i: int,
) -> bool {
    fetched(s, records, parent, ascii("Kids")) matches Ok(Some(Value::Array(kids))) && 0 <= i
        < kids.len() && resolved_or_absent(s, records, kids[i]) == Ok::<
        Option<Value>,
        ErrorKind,
    >(Some(Value::Dictionary(child)))
}

/// `child` is one of the child nodes of `parent`.
pub open spec fn child_of(
    s: Seq<u8>,
    records: Seq<XrefRecord>,
    parent: Seq<(Seq<u8>, Value)>,
    child: Seq<(Seq<u8>, Value)>,
) -> bool {
    exists|i: int| kid_at(s, records, parent, child, i)
}

/// Each node of the path but the first is a child of the node before it.
pub open spec fn is_chain(
    s: Seq<u8>,
    records: Seq<XrefRecord>,
    path: Seq<Seq<(Seq<u8>, Value)>>,
) -> bool {
    forall|k: int| 0 <= k < path.len() - 1 ==> child_of(s, records, #[trigger] path[k], path[k + 1])
}

/// Walking the node fails with `depth` levels left, whatever the budget and
/// the files found before.
pub open spec fn always_fails(
    s: Seq<u8>,
    records: Seq<XrefRecord>,
    node: Seq<(Seq<u8>, Value)>,
    depth: nat,
) -> bool {
    forall|budget: nat, acc: Seq<FileView>|
        (#[trigger] walk_node(s, records, node, depth, budget, acc)) is Err
}

/// The only errors of a walk are `TreeTooDeep` and `CyclicReference`.
pub open spec fn is_walk_error(e: ErrorKind) -> bool {
    e == ErrorKind::TreeTooDeep || e == ErrorKind::CyclicReference
}

proof fn lemma_leaf_errors(
    s: Seq<u8>,
    records: Seq<XrefRecord>,
    names: Seq<Value>,
    i: int,
    acc: Seq<FileView>,
)
    ensures
        leaf_files(s, records, names, i, acc) matches Err(e) ==> e == ErrorKind::CyclicReference,
    decreases names.len() - i,
{
    if !(i < 0 || i + 1 >= names.len()) {
        match names[i] {
            Value::String(key) => match file_of(s, records, key, names[i + 1]) {
                Ok(f) => {
                    lemma_leaf_errors(s, records, names, i + 2, acc.push(f));
                },
                Err(e) => {},
            },
            _ => {
                lemma_leaf_errors(s, records, names, i + 2, acc);
            },
        }
    }
}

proof fn lemma_node_errors(
    s: Seq<u8>,
    records: Seq<XrefRecord>,
    node: Seq<(Seq<u8>, Value)>,
    depth: nat,
    budget: nat,
    acc: Seq<FileView>,
)
    ensures
        walk_node(s, records, node, depth, budget, acc) matches Err(e) ==> is_walk_error(e),
    decreases 2 * depth + 1, 0int,
{
    match fetched(s, records, node, ascii("Names")) {
        Err(e) => {},
        Ok(names) => {
            let leaf = match names {
                Some(Value::Array(a)) => leaf_files(s, records, a, 0, acc),
                _ => Ok(acc),
            };
            if let Some(Value::Array(a)) = names {
                lemma_leaf_errors(s, records, a, 0, acc);
            }
            match leaf {
                Err(e) => {},
                Ok(acc1) => match fetched(s, records, node, ascii("Kids")) {
                    Ok(Some(Value::Array(kids))) => {
                        lemma_kids_errors(s, records, kids, 0, depth, budget, acc1);
                    },
                    _ => {},
                },
            }
        },
    }
}

proof fn lemma_kids_errors(
    s: Seq<u8>,
    records: Seq<XrefRecord>,
    kids: Seq<Value>,
    i: int,
    depth: nat,
    budget: nat,
    acc: Seq<FileView>,
)
    ensures
        walk_kids(s, records, kids, i, depth, budget, acc) matches Err(e) ==> is_walk_error(e),
    decreases 2 * depth, kids.len() - i,
{
    if !(i < 0 || i >= kids.len()) && !(depth == 0 || budget == 0) {
        match resolved_or_absent(s, records, kids[i]) {
            Err(e) => {},
            Ok(Some(Value::Dictionary(child))) => {
                lemma_node_errors(
                    s,
                    records,
                    child,
                    (depth - 1) as nat,
                    (budget - 1) as nat,
                    acc,
                );
                match walk_node(s, records, child, (depth - 1) as nat, (budget - 1) as nat, acc) {
                    Ok((acc2, left)) => {
                        lemma_kids_errors(s, records, kids, i + 1, depth, left, acc2);
                    },
                    Err(e) => {},
                }
            },
            Ok(_) => {
                lemma_kids_errors(s, records, kids, i + 1, depth, (budget - 1) as nat, acc);
            },
        }
    }
}

/// A walk that fails fails with `TreeTooDeep` or `CyclicReference`.
pub proof fn lemma_walk_errors(
    s: Seq<u8>,
    records: Seq<XrefRecord>,
    node: Seq<(Seq<u8>, Value)>,
    depth: nat,
    budget: nat,
    acc: Seq<FileView>,
)
    ensures
        walk_node(s, records, node, depth, budget, acc) matches Err(e) ==> is_walk_error(e),
{
    lemma_node_errors(s, records, node, depth, budget, acc);
}

proof fn lemma_kids_fail(
    s: Seq<u8>,
    records: Seq<XrefRecord>,
    kids: Seq<Value>,
    i: int,
    j: int,
    child: Seq<(Seq<u8>, Value)>,
    depth: nat,
    budget: nat,
    acc: Seq<FileView>,
)
    requires
        0 <= i <= j < kids.len(),
        resolved_or_absent(s, records, kids[j]) == Ok::<Option<Value>, ErrorKind>(
            Some(Value::Dictionary(child)),
        ),
        depth == 0 || always_fails(s, records, child, (depth - 1) as nat),
    ensures
        walk_kids(s, records, kids, i, depth, budget, acc) is Err,
    decreases j - i,
{
    if depth == 0 || budget == 0 {
    } else if i == j {
        assert(walk_node(s, records, child, (depth - 1) as nat, (budget - 1) as nat, acc) is Err);
    } else {
        match resolved_or_absent(s, records, kids[i]) {
            Err(e) => {},
            Ok(Some(Value::Dictionary(other))) => {
                match walk_node(s, records, other, (depth - 1) as nat, (budget - 1) as nat, acc) {
                    Ok((acc2, left)) => {
                        lemma_kids_fail(s, records, kids, i + 1, j, child, depth, left, acc2);
                    },
                    Err(e) => {},
                }
            },
            Ok(_) => {
                lemma_kids_fail(
                    s,
                    records,
                    kids,
                    i + 1,
                    j,
                    child,
                    depth,
                    (budget - 1) as nat,
                    acc,
                );
            },
        }
    }
}

/// A node fails where one of its children fails one level further down, or
/// where no level is left for its children.
pub proof fn lemma_parent_fails(
    s: Seq<u8>,
    records: Seq<XrefRecord>,
    parent: Seq<(Seq<u8>, Value)>,
    child: Seq<(Seq<u8>, Value)>,
    depth: nat,
)
    requires
        child_of(s, records, parent, child),
        depth == 0 || always_fails(s, records, child, (depth - 1) as nat),
    ensures
        always_fails(s, records, parent, depth),
{
    let j = choose|i: int| kid_at(s, records, parent, child, i);
    let kids = fetched(s, records, parent, ascii("Kids"))->Ok_0->0->Array_0;
    assert forall|budget: nat, acc: Seq<FileView>|
        (#[trigger] walk_node(s, records, parent, depth, budget, acc)) is Err by {
        match fetched(s, records, parent, ascii("Names")) {
            Err(e) => {},
            Ok(names) => {
                let leaf = match names {
                    Some(Value::Array(a)) => leaf_files(s, records, a, 0, acc),
                    _ => Ok(acc),
                };
                match leaf {
                    Err(e) => {},
                    Ok(acc1) => {
                        lemma_kids_fail(s, records, kids, 0, j, child, depth, budget, acc1);
                    },
                }
            },
        }
    }
}

proof fn lemma_chain_fails(
    s: Seq<u8>,
    records: Seq<XrefRecord>,
    path: Seq<Seq<(Seq<u8>, Value)>>,
    j: int,
    depth: nat,
)
    requires
        is_chain(s, records, path),
        0 <= j < path.len() - 1,
        path[path.len() - 1] == path[j],
    ensures
        forall|k: int| 0 <= k < path.len() - 1 ==> always_fails(s, records, #[trigger] path[k], depth),
    decreases depth,
{
    if depth > 0 {
        lemma_chain_fails(s, records, path, j, (depth - 1) as nat);
    }
    assert forall|k: int| 0 <= k < path.len() - 1 implies always_fails(
        s,
        records,
        #[trigger] path[k],
        depth,
    ) by {
        assert(child_of(s, records, path[k], path[k + 1]));
        if depth > 0 {
            if k + 1 < path.len() - 1 {
                assert(always_fails(s, records, path[k + 1], (depth - 1) as nat));
            } else {
                assert(always_fails(s, records, path[j], (depth - 1) as nat));
            }
        }
        lemma_parent_fails(s, records, path[k], path[k + 1], depth);
    }
}

/// A tree with a cycle cannot be listed. Where a path of child nodes leads
/// from a node down to a node that the path has passed before, the walk of
/// the first node ends, and it ends with `TreeTooDeep` or `CyclicReference`,
/// however deep it may go and whatever budget it has.
pub proof fn lemma_cyclic_tree_fails(
    s: Seq<u8>,
    records: Seq<XrefRecord>,
    path: Seq<Seq<(Seq<u8>, Value)>>,
    j: int,
    depth: nat,
    budget: nat,
    acc: Seq<FileView>,
)
    requires
        is_chain(s, records, path),
        0 <= j < path.len() - 1,
        path[path.len() - 1] == path[j],
    ensures
        walk_node(s, records, path[0], depth, budget, acc) matches Err(e) && is_walk_error(e),
{
    lemma_chain_fails(s, records, path, j, depth);
    assert(always_fails(s, records, path[0], depth));
    lemma_node_errors(s, records, path[0], depth, budget, acc);
}

/// A document whose name tree of embedded files has a cycle below its root
/// has no listing: `embedded_files` fails with `TreeTooDeep` or
/// `CyclicReference`.
pub proof fn lemma_cyclic_listing_fails(
    s: Seq<u8>,
    records: Seq<XrefRecord>,
    catalog: Seq<(Seq<u8>, Value)>,
    names: Seq<(Seq<u8>, Value)>,
    path: Seq<Seq<(Seq<u8>, Value)>>,
    j: int,
)
    requires
        fetched(s, records, catalog, ascii("Names")) == Ok::<Option<Value>, ErrorKind>(
            Some(Value::Dictionary(names)),
        ),
        fetched(s, records, names, ascii("EmbeddedFiles")) == Ok::<Option<Value>, ErrorKind>(
            Some(Value::Dictionary(path[0])),
        ),
        is_chain(s, records, path),
        0 <= j < path.len() - 1,
        path[path.len() - 1] == path[j],
    ensures
        embedded_files(s, records, catalog) matches Err(e) && is_walk_error(e),
{
    lemma_cyclic_tree_fails(
        s,
        records,
        path,
        j,
        MAX_TREE_DEPTH as nat,
        MAX_TREE_NODES as nat,
        Seq::empty(),
    );
}

} // verus!
