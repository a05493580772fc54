//! Choosing the invoice among the attached XML files.
use vstd::prelude::*;
use crate::bytes::{
    as_int, ascii, bytes_eq_ignore_case, contains, ends_with_ignore_case, eq_ignore_case, has_match,
    has_suffix_ignore_case,
};
use crate::nametree::{files_view, EmbeddedFile, FileView};

verus! {

/// An attached XML file that could be decoded: its name and its content.
#[derive(Debug, PartialEq, Eq)]
pub struct Candidate {
    pub filename: Vec<u8>,
    pub payload: Vec<u8>,
}

/// The mathematical value of a candidate.
pub struct CandidateView {
    pub filename: Seq<u8>,
    pub payload: Seq<u8>,
}

impl View for Candidate {
    type V = CandidateView;

    open spec fn view(&self) -> CandidateView {
        CandidateView { filename: self.filename@, payload: self.payload@ }
    }
}

/// The values of a list of candidates.
pub open spec fn candidates_view(v: Vec<Candidate>) -> Seq<CandidateView> {
    Seq::new(v@.len(), |i: int| v@[i]@)
}

/// The name ends in `.xml`, in any case of the letters.
pub open spec fn is_xml_name(name: Seq<u8>) -> bool {
    ends_with_ignore_case(name, ascii(".xml"))
}

/// The content holds the marker `<rsm:`, the prefix of the root element of a
/// Cross Industry Invoice.
pub open spec fn has_marker(payload: Seq<u8>) -> bool {
    contains(payload, ascii("<rsm:"))
}

/// The name is `factur-x.xml`, in any case of the letters.
pub open spec fn is_canonical_name(name: Seq<u8>) -> bool {
    eq_ignore_case(name, ascii("factur-x.xml"))
}

/// The least index at or after `from` of a file whose name ends in `.xml`.
pub open spec fn first_xml(files: Seq<FileView>, from: int) -> Option<int>
    decreases files.len() - from,
{
    if from < 0 || from >= files.len() {
        None
    } else if is_xml_name(files[from].filename) {
        Some(from)
    } else {
        first_xml(files, from + 1)
    }
}

/// The least index at or after `from` of a candidate with the marker.
pub open spec fn first_marked(cands: Seq<CandidateView>, from: int) -> Option<int>
    decreases cands.len() - from,
{
    if from < 0 || from >= cands.len() {
        None
    } else if has_marker(cands[from].payload) {
        Some(from)
    } else {
        first_marked(cands, from + 1)
    }
}

/// The index of the candidate that is chosen: the first with the marker, or
/// the first of all where none has it.
pub open spec fn selected_index(cands: Seq<CandidateView>) -> int {
    match first_marked(cands, 0) {
        Some(i) => i,
        None => 0,
    }
}

/// The label for an extraction under the given file name.
pub open spec fn status_label(name: Seq<u8>) -> Seq<char> {
    if is_canonical_name(name) {
        "Success"@
    } else {
        "XML is not Factur-x.xml"@
    }
}

/// `first_xml` gives the first file with an XML name, and `None` only where
/// no file has one.
pub proof fn lemma_first_xml(files: Seq<FileView>, from: int)
    requires
        0 <= from,
    ensures
        match first_xml(files, from) {
            Some(i) => from <= i < files.len() && is_xml_name(files[i].filename) && forall|j: int|
                from <= j < i ==> !is_xml_name(files[j].filename),
            None => forall|j: int| from <= j < files.len() ==> !is_xml_name(files[j].filename),
        },
    decreases files.len() - from,
{
    if from < files.len() && !is_xml_name(files[from].filename) {
        lemma_first_xml(files, from + 1);
    }
}

/// `first_marked` gives the first candidate with the marker, and `None` only
/// where no candidate has it.
pub proof fn lemma_first_marked(cands: Seq<CandidateView>, from: int)
    requires
        0 <= from,
    ensures
        match first_marked(cands, from) {
            Some(i) => from <= i < cands.len() && has_marker(cands[i].payload) && forall|j: int|
                from <= j < i ==> !has_marker(cands[j].payload),
            None => forall|j: int| from <= j < cands.len() ==> !has_marker(cands[j].payload),
        },
    decreases cands.len() - from,
{
    if from < cands.len() && !has_marker(cands[from].payload) {
        lemma_first_marked(cands, from + 1);
    }
}

/// Where any candidate holds the marker, the chosen one holds it, whatever
/// the order of the candidates.
pub proof fn lemma_selection_prefers_marker(cands: Seq<CandidateView>, k: int)
    requires
        0 <= k < cands.len(),
        has_marker(cands[k].payload),
    ensures
        0 <= selected_index(cands) < cands.len(),
        has_marker(cands[selected_index(cands)].payload),
{
    lemma_first_marked(cands, 0);
}

/// Of two candidates of which exactly one holds the marker, that one is
/// chosen, in either order.
pub proof fn lemma_selection_of_two(with: CandidateView, without: CandidateView)
    requires
        has_marker(with.payload),
        !has_marker(without.payload),
    ensures
        seq![with, without][selected_index(seq![with, without])] == with,
        seq![without, with][selected_index(seq![without, with])] == with,
{
    let a = seq![with, without];
    let b = seq![without, with];
    lemma_first_marked(a, 0);
    lemma_first_marked(b, 0);
    assert(has_marker(b[1].payload));
    assert(has_marker(a[0].payload));
}

/// Whether a file name ends in `.xml`.
pub fn xml_name(name: &[u8]) -> (r: bool)
    ensures
        r == is_xml_name(name@),
{
    has_suffix_ignore_case(name, ".xml".as_bytes())
}

/// The index of the first file whose name ends in `.xml`.
pub fn find_first_xml(files: &Vec<EmbeddedFile>) -> (r: Option<usize>)
    ensures
        as_int(r) == first_xml(files_view(*files), 0),
{
    let mut i: usize = 0;
    while i < files.len()
        invariant
            i <= files.len(),
            first_xml(files_view(*files), 0) == first_xml(files_view(*files), i as int),
        decreases files.len() - i,
    {
        if xml_name(files[i].filename.as_slice()) {
            return Some(i);
        }
        i += 1;
    }
    None
}

/// The index of the candidate to choose: the first whose content holds
/// `<rsm:`, or the first of all where none does.
pub fn choose_candidate(cands: &Vec<Candidate>) -> (r: usize)
    ensures
        r as int == selected_index(candidates_view(*cands)),
        cands.len() > 0 ==> r < cands.len(),
{
    let mut i: usize = 0;
    while i < cands.len()
        invariant
            i <= cands.len(),
            first_marked(candidates_view(*cands), 0) == first_marked(
                candidates_view(*cands),
                i as int,
            ),
        decreases cands.len() - i,
    {
        if has_match(cands[i].payload.as_slice(), "<rsm:".as_bytes()) {
            return i;
        }
        i += 1;
    }
    0
}

/// The label for an extraction under the given file name: `Success` for
/// `factur-x.xml`, in any case of the letters, and a remark that the file has
/// another name otherwise. Either way the extraction succeeded.
pub fn label_for(name: &[u8]) -> (r: String)
    ensures
        r@ == status_label(name@),
{
    if bytes_eq_ignore_case(name, "factur-x.xml".as_bytes()) {
        "Success".to_owned()
    } else {
        "XML is not Factur-x.xml".to_owned()
    }
}

} // verus!
