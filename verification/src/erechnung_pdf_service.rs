//! The extraction as a whole: from the bytes of a PDF to the invoice XML.
use vstd::prelude::*;
use vstd::utf8::{encode_utf8, valid_utf8};
use crate::bytes::{ascii, bytes_eq, eq_ignore_case, opt_bytes};
use crate::document::{opened, resolve_reference, resolved_value, Document, DocumentView};
use crate::error::{kind_label, ErrorKind};
use crate::filter::{decode_stream, decoded};
use crate::nametree::{
    embedded_files, fetched, files_view, lemma_walk_errors, list_embedded_files, EmbeddedFile,
    FileView, MAX_TREE_DEPTH, MAX_TREE_NODES,
};
use crate::object::{dict_get, dict_lookup, ObjRef, PdfObject, Value};
use crate::revisions::lemma_resolved_errors;
use crate::select::{
    candidates_view, choose_candidate, find_first_xml, first_xml, has_marker, is_xml_name,
    label_for, lemma_first_xml, lemma_selection_prefers_marker, selected_index, status_label,
    xml_name, Candidate, CandidateView,
};
use crate::text::{
    decode_lossy, join, joined, lemma_text_round_trip, lemma_valid_bytes_are_kept, listing,
    lossy_text, names_text, opt_strings_view, strings_view,
};
use crate::xmp::{declares_pdfa3, is_pdfa3, property_value};
use crate::xref::XrefRecord;

verus! {

/// What a successful extraction returns.
#[derive(Debug, PartialEq, Eq)]
pub struct ExtractionOutcome {
    /// The names of all embedded files, in the order of the name tree.
    pub embedded_filenames: Vec<String>,
    /// The name of the file that was chosen, as it is stored.
    pub selected_xml_filename: String,
    /// The content of the file that was chosen.
    pub selected_xml_text: String,
    /// `Success` where the file is named `factur-x.xml`, else a remark.
    pub status_label: String,
}

/// The mathematical value of an outcome.
pub struct OutcomeView {
    pub embedded_filenames: Seq<Seq<char>>,
    pub selected_xml_filename: Seq<char>,
    pub selected_xml_text: Seq<char>,
    pub status_label: Seq<char>,
}

impl View for ExtractionOutcome {
    type V = OutcomeView;

    open spec fn view(&self) -> OutcomeView {
        OutcomeView {
            embedded_filenames: strings_view(self.embedded_filenames),
            selected_xml_filename: self.selected_xml_filename@,
            selected_xml_text: self.selected_xml_text@,
            status_label: self.status_label@,
        }
    }
}

/// A failed extraction: its kind and, where the embedded files were already
/// listed when it failed, their names.
#[derive(Debug, PartialEq, Eq)]
pub struct CoreError {
    pub kind: ErrorKind,
    pub embedded_filenames: Option<Vec<String>>,
}

/// The mathematical value of a failure.
pub struct CoreErrorView {
    pub kind: ErrorKind,
    pub embedded_filenames: Option<Seq<Seq<char>>>,
}

impl View for CoreError {
    type V = CoreErrorView;

    open spec fn view(&self) -> CoreErrorView {
        CoreErrorView {
            kind: self.kind,
            embedded_filenames: opt_strings_view(self.embedded_filenames),
        }
    }
}

/// The answer to a caller for a successful extraction.
#[derive(Debug, PartialEq, Eq)]
pub struct SuccessResponse {
    pub file_status: String,
    /// The names of the embedded files, joined with a comma and a space.
    pub embedded_files: String,
    pub xml_content: String,
    pub xml_filename: String,
}

/// The mathematical value of a successful answer.
pub struct SuccessView {
    pub file_status: Seq<char>,
    pub embedded_files: Seq<char>,
    pub xml_content: Seq<char>,
    pub xml_filename: Seq<char>,
}

impl View for SuccessResponse {
    type V = SuccessView;

    open spec fn view(&self) -> SuccessView {
        SuccessView {
            file_status: self.file_status@,
            embedded_files: self.embedded_files@,
            xml_content: self.xml_content@,
            xml_filename: self.xml_filename@,
        }
    }
}

/// The answer to a caller for a failed extraction.
#[derive(Debug, PartialEq, Eq)]
pub struct ErrorResponse {
    /// The name of the kind of failure.
    pub file_status: String,
    /// The names of the embedded files, joined, where they were listed.
    pub embedded_files: Option<String>,
}

/// The mathematical value of a failed answer.
pub struct ErrorView {
    pub file_status: Seq<char>,
    pub embedded_files: Option<Seq<char>>,
}

impl View for ErrorResponse {
    type V = ErrorView;

    open spec fn view(&self) -> ErrorView {
        ErrorView {
            file_status: self.file_status@,
            embedded_files: match self.embedded_files {
                Some(text) => Some(text@),
                None => None,
            },
        }
    }
}

/// The bytes begin with the signature `%PDF-`.
pub open spec fn has_pdf_header(s: Seq<u8>) -> bool {
    s.len() >= 5 && s.subrange(0, 5) == ascii("%PDF-")
}

/// A failure of the given kind, with the names of the files where they are
/// known.
pub open spec fn failure(kind: ErrorKind, files: Option<Seq<FileView>>) -> CoreErrorView {
    CoreErrorView {
        kind,
        embedded_filenames: match files {
            Some(f) => Some(names_text(f)),
            None => None,
        },
    }
}

/// The decoded data of the stream that `v` refers to.
pub open spec fn stream_data(s: Seq<u8>, records: Seq<XrefRecord>, v: Value) -> Option<Seq<u8>> {
    match resolved_value(s, records, v) {
        Ok(Value::Stream(d, raw)) => match decoded(d, raw) {
            Ok(data) => Some(data),
            Err(_) => None,
        },
        _ => None,
    }
}

/// The XMP packet of the document: the decoded stream under `/Metadata` of
/// the catalog.
pub open spec fn metadata_packet(s: Seq<u8>, doc: DocumentView) -> Option<Seq<u8>> {
    match dict_get(doc.catalog, ascii("Metadata")) {
        Some(Value::Reference(r)) => stream_data(s, doc.records, Value::Reference(r)),
        _ => None,
    }
}

/// The document has metadata that can be decoded and that declares PDF/A
/// part 3.
#[verifier::opaque]
pub open spec fn passes_pdfa3(s: Seq<u8>, doc: DocumentView) -> bool {
    match metadata_packet(s, doc) {
        Some(xml) => is_pdfa3(xml),
        None => false,
    }
}

/// The embedded files of the document. A document without any has no XML
/// candidate; nothing is attached to that failure.
#[verifier::opaque]
pub open spec fn found_files(s: Seq<u8>, doc: DocumentView) -> Result<
    Seq<FileView>,
    CoreErrorView,
> {
    match embedded_files(s, doc.records, doc.catalog) {
        Err(e) => Err(failure(e, None)),
        Ok(files) => if files.len() == 0 {
            Err(failure(ErrorKind::NoXmlCandidate, None))
        } else {
            Ok(files)
        },
    }
}

/// The decoded content of an embedded file, where it can be had.
pub open spec fn payload_of(s: Seq<u8>, records: Seq<XrefRecord>, f: FileView) -> Option<Seq<u8>> {
    match f.stream {
        Some(r) => stream_data(s, records, Value::Reference(r)),
        None => None,
    }
}

/// The candidates among the files from index `i` on, after `acc`: every file
/// whose name ends in `.xml` and whose content can be decoded, in order. A
/// file whose stream cannot be decoded is passed over.
pub open spec fn candidates(
    s: Seq<u8>,
    records: Seq<XrefRecord>,
    files: Seq<FileView>,
    i: int,
    acc: Seq<CandidateView>,
) -> Seq<CandidateView>
    decreases files.len() - i,
{
    if i < 0 || i >= files.len() {
        acc
    } else if is_xml_name(files[i].filename) {
        match payload_of(s, records, files[i]) {
            Some(payload) => candidates(
                s,
                records,
                files,
                i + 1,
                acc.push(CandidateView { filename: files[i].filename, payload }),
            ),
            None => candidates(s, records, files, i + 1, acc),
        }
    } else {
        candidates(s, records, files, i + 1, acc)
    }
}

/// The outcome for the listed files and the chosen candidate.
pub open spec fn outcome_of(files: Seq<FileView>, chosen: CandidateView) -> OutcomeView {
    OutcomeView {
        embedded_filenames: names_text(files),
        selected_xml_filename: lossy_text(chosen.filename),
        selected_xml_text: lossy_text(chosen.payload),
        status_label: status_label(chosen.filename),
    }
}

/// What the extraction gives for an opened document: the PDF/A-3 check comes
/// first, then the listing of the files, the candidates and the choice.
pub open spec fn extraction_from(s: Seq<u8>, doc: DocumentView) -> Result<
    OutcomeView,
    CoreErrorView,
> {
    if !passes_pdfa3(s, doc) {
        Err(failure(ErrorKind::NotPDFA3, None))
    } else {
        match found_files(s, doc) {
            Err(e) => Err(e),
            Ok(files) => if first_xml(files, 0) is None {
                Err(failure(ErrorKind::NoXmlCandidate, Some(files)))
            } else {
                let cands = candidates(s, doc.records, files, 0, Seq::empty());
                if cands.len() == 0 {
                    Err(failure(ErrorKind::ExtractionFailed, Some(files)))
                } else {
                    Ok(outcome_of(files, cands[selected_index(cands)]))
                }
            },
        }
    }
}

/// What the extraction gives for the bytes of a file.
pub open spec fn extraction(s: Seq<u8>) -> Result<OutcomeView, CoreErrorView> {
    if !has_pdf_header(s) {
        Err(failure(ErrorKind::InvalidPdfHeader, None))
    } else {
        match opened(s) {
            Err(e) => Err(failure(e, None)),
            Ok(doc) => extraction_from(s, doc),
        }
    }
}

/// The answer for an outcome: the same texts, the names joined into one.
pub open spec fn success_of(o: OutcomeView) -> SuccessView {
    SuccessView {
        file_status: o.status_label,
        embedded_files: joined(o.embedded_filenames, ", "@),
        xml_content: o.selected_xml_text,
        xml_filename: o.selected_xml_filename,
    }
}

/// The answer for a failure: the name of its kind and the names joined.
pub open spec fn error_of(e: CoreErrorView) -> ErrorView {
    ErrorView {
        file_status: kind_label(e.kind),
        embedded_files: match e.embedded_filenames {
            Some(names) => Some(joined(names, ", "@)),
            None => None,
        },
    }
}

/// The answer for the result of an extraction.
pub open spec fn response_of(r: Result<OutcomeView, CoreErrorView>) -> Result<
    SuccessView,
    ErrorView,
> {
    match r {
        Ok(o) => Ok(success_of(o)),
        Err(e) => Err(error_of(e)),
    }
}

/// The value of the result of an extraction.
pub open spec fn result_view(r: Result<ExtractionOutcome, CoreError>) -> Result<
    OutcomeView,
    CoreErrorView,
> {
    match r {
        Ok(o) => Ok(o@),
        Err(e) => Err(e@),
    }
}

/// The value of an answer.
pub open spec fn response_view(r: Result<SuccessResponse, ErrorResponse>) -> Result<
    SuccessView,
    ErrorView,
> {
    match r {
        Ok(o) => Ok(o@),
        Err(e) => Err(e@),
    }
}

fn fail(kind: ErrorKind) -> (e: CoreError)
    ensures
        e@ == failure(kind, None),
{
    CoreError { kind, embedded_filenames: None }
}

fn fail_with(kind: ErrorKind, files: &Vec<EmbeddedFile>) -> (e: CoreError)
    ensures
        e@ == failure(kind, Some(files_view(*files))),
{
    CoreError { kind, embedded_filenames: Some(listing(files)) }
}

fn read_stream_data(buf: &[u8], doc: &Document, target: ObjRef) -> (r: Option<
    Vec<u8>,
>)
    ensures
        opt_bytes(r) == stream_data(buf@, doc@.records, Value::Reference(target)),
{
    match resolve_reference(buf, &doc.records, target) {
        Ok(PdfObject::Stream(d, raw)) => match decode_stream(&d, raw.as_slice()) {
            Ok(data) => Some(data),
            Err(_) => None,
        },
        _ => None,
    }
}

/// The service that turns a PDF into the invoice it carries.
pub struct ERechnungService;

impl ERechnungService {
    /// Checks that the bytes begin with `%PDF-`.
    pub fn validate_pdf_format(pdf_bytes: &[u8]) -> (r: Result<(), CoreError>)
        ensures
            match r {
                Ok(_) => has_pdf_header(pdf_bytes@),
                Err(e) => !has_pdf_header(pdf_bytes@) && e@ == failure(
                    ErrorKind::InvalidPdfHeader,
                    None,
                ),
            },
    {
        if pdf_bytes.len() >= 5 && bytes_eq(
            vstd::slice::slice_subrange(pdf_bytes, 0, 5),
            "%PDF-".as_bytes(),
        ) {
            Ok(())
        } else {
            Err(fail(ErrorKind::InvalidPdfHeader))
        }
    }

    /// Checks that the metadata of the document declares PDF/A part 3.
    ///
    /// The packet is the stream under `/Metadata` of the catalog. `NotPDFA3`
    /// where there is none, where it cannot be decoded, or where its
    /// `pdfaid:part` is missing or not `3`.
    pub fn validate_pdfa3_format(pdf_bytes: &[u8], doc: &Document) -> (r: Result<(), CoreError>)
        ensures
            match r {
                Ok(_) => passes_pdfa3(pdf_bytes@, doc@),
                Err(e) => !passes_pdfa3(pdf_bytes@, doc@) && e@ == failure(
                    ErrorKind::NotPDFA3,
                    None,
                ),
            },
    {
        reveal(passes_pdfa3);
        let packet = match dict_lookup(&doc.catalog, "Metadata".as_bytes()) {
            Some(PdfObject::Reference(r)) => read_stream_data(pdf_bytes, doc, *r),
            _ => None,
        };
        match packet {
            Some(xml) => {
                if declares_pdfa3(xml.as_slice()) {
                    Ok(())
                } else {
                    Err(fail(ErrorKind::NotPDFA3))
                }
            },
            None => Err(fail(ErrorKind::NotPDFA3)),
        }
    }

    /// Lists the embedded files of the document.
    ///
    /// The errors of the name tree walk, with nothing attached; a tree
    /// without any file gives `NoXmlCandidate`.
    pub fn find_embedded_files(pdf_bytes: &[u8], doc: &Document) -> (r: Result<
        Vec<EmbeddedFile>,
        CoreError,
    >)
        ensures
            match r {
                Ok(files) => found_files(pdf_bytes@, doc@) == Ok::<Seq<FileView>, CoreErrorView>(
                    files_view(files),
                ) && files.len() > 0,
                Err(e) => found_files(pdf_bytes@, doc@) == Err::<Seq<FileView>, CoreErrorView>(e@),
            },
    {
        reveal(found_files);
        match list_embedded_files(pdf_bytes, &doc.records, &doc.catalog) {
            Err(e) => Err(fail(e)),
            Ok(files) => {
                if files.len() == 0 {
                    Err(fail(ErrorKind::NoXmlCandidate))
                } else {
                    Ok(files)
                }
            },
        }
    }

    /// Finds the first embedded file whose name ends in `.xml`, in any case
    /// of the letters, and returns its name.
    ///
    /// `NoXmlCandidate` where no file has such a name; the names of all files
    /// are attached.
    pub fn find_xml_file(embedded_files: &Vec<EmbeddedFile>) -> (r: Result<Vec<u8>, CoreError>)
        ensures
            match r {
                Ok(name) => first_xml(files_view(*embedded_files), 0) matches Some(i) && name@
                    == embedded_files@[i].filename@,
                Err(e) => first_xml(files_view(*embedded_files), 0) is None && e@ == failure(
                    ErrorKind::NoXmlCandidate,
                    Some(files_view(*embedded_files)),
                ),
            },
    {
        proof {
            lemma_first_xml(files_view(*embedded_files), 0);
        }
        match find_first_xml(embedded_files) {
            Some(i) => Ok(vstd::slice::slice_to_vec(embedded_files[i].filename.as_slice())),
            None => Err(fail_with(ErrorKind::NoXmlCandidate, embedded_files)),
        }
    }

    /// Decodes the content of every embedded file whose name ends in `.xml`.
    ///
    /// A file whose stream is missing, uses a filter that is not implemented
    /// or cannot be decoded is passed over. `ExtractionFailed` where that
    /// leaves no candidate; the names of all files are attached.
    pub fn extract_xml_contents(
        pdf_bytes: &[u8],
        doc: &Document,
        embedded_files: &Vec<EmbeddedFile>,
    ) -> (r: Result<Vec<Candidate>, CoreError>)
        ensures
            match r {
                Ok(cands) => candidates_view(cands) == candidates(
                    pdf_bytes@,
                    doc@.records,
                    files_view(*embedded_files),
                    0,
                    Seq::empty(),
                ) && cands.len() > 0,
                Err(e) => candidates(
                    pdf_bytes@,
                    doc@.records,
                    files_view(*embedded_files),
                    0,
                    Seq::empty(),
                ).len() == 0 && e@ == failure(
                    ErrorKind::ExtractionFailed,
                    Some(files_view(*embedded_files)),
                ),
            },
    {
        let mut out: Vec<Candidate> = Vec::new();
        let mut i: usize = 0;
        let ghost files = files_view(*embedded_files);
        assert(candidates_view(out) =~= Seq::empty());
        while i < embedded_files.len()
            invariant
                i <= embedded_files.len(),
                files == files_view(*embedded_files),
                candidates(pdf_bytes@, doc@.records, files, 0, Seq::empty()) == candidates(
                    pdf_bytes@,
                    doc@.records,
                    files,
                    i as int,
                    candidates_view(out),
                ),
            decreases embedded_files.len() - i,
        {
            let file = &embedded_files[i];
            if xml_name(file.filename.as_slice()) {
                let payload = match file.stream {
                    Some(target) => read_stream_data(pdf_bytes, doc, target),
                    None => None,
                };
                match payload {
                    Some(payload) => {
                        let ghost before = candidates_view(out);
                        let c = Candidate {
                            filename: vstd::slice::slice_to_vec(file.filename.as_slice()),
                            payload,
                        };
                        out.push(c);
                        assert(candidates_view(out) =~= before.push(
                            CandidateView { filename: files[i as int].filename, payload: payload@ },
                        ));
                    },
                    None => {},
                }
            }
            i += 1;
        }
        if out.len() == 0 {
            Err(fail_with(ErrorKind::ExtractionFailed, embedded_files))
        } else {
            Ok(out)
        }
    }

    /// Chooses the invoice among the candidates: the first whose content
    /// holds `<rsm:`, or the first of all where none does.
    ///
    /// `ExtractionFailed` where there is no candidate; the names of all files
    /// are attached.
    pub fn select_best_xml_content(
        xml_contents: Vec<Candidate>,
        embedded_files: &Vec<EmbeddedFile>,
    ) -> (r: Result<Candidate, CoreError>)
        ensures
            match r {
                Ok(c) => xml_contents.len() > 0 && c@ == candidates_view(
                    xml_contents,
                )[selected_index(candidates_view(xml_contents))],
                Err(e) => xml_contents.len() == 0 && e@ == failure(
                    ErrorKind::ExtractionFailed,
                    Some(files_view(*embedded_files)),
                ),
            },
    {
        if xml_contents.len() == 0 {
            return Err(fail_with(ErrorKind::ExtractionFailed, embedded_files));
        }
        let i = choose_candidate(&xml_contents);
        let mut rest = xml_contents;
        Ok(rest.swap_remove(i))
    }

    /// The label for an extraction under the given file name.
    pub fn determine_status(xml_file: &[u8]) -> (r: String)
        ensures
            r@ == status_label(xml_file@),
    {
        label_for(xml_file)
    }

    /// Extracts the invoice from a PDF and answers in the form that callers
    /// pass on: the texts of `validate_and_extract`, with the names of the
    /// embedded files joined by a comma and a space, and a failure named by
    /// its kind.
    pub fn process_pdf(pdf_bytes: Vec<u8>) -> (r: Result<SuccessResponse, ErrorResponse>)
        ensures
            response_view(r) == response_of(extraction(pdf_bytes@)),
    {
        match validate_and_extract(pdf_bytes.as_slice()) {
            Ok(o) => Ok(
                SuccessResponse {
                    file_status: o.status_label,
                    embedded_files: join(&o.embedded_filenames, ", "),
                    xml_content: o.selected_xml_text,
                    xml_filename: o.selected_xml_filename,
                },
            ),
            Err(e) => Err(
                ErrorResponse {
                    file_status: e.kind.label(),
                    embedded_files: match &e.embedded_filenames {
                        Some(names) => Some(join(names, ", ")),
                        None => None,
                    },
                },
            ),
        }
    }
}

/// Validates a PDF and extracts the invoice XML that it carries.
///
/// The steps, each of which may fail: the signature `%PDF-`
/// (`InvalidPdfHeader`); the cross-reference data and the catalog
/// (`MissingTrailer`, `CorruptXref`, `CyclicReference`); the PDF/A-3
/// identification (`NotPDFA3`); the listing of the embedded files
/// (`NoEmbeddedFiles`, `TreeTooDeep`, `CyclicReference`, `NoXmlCandidate`);
/// the decoding of the XML files (`ExtractionFailed`); the choice. From the
/// moment the files are listed, a failure carries their names.
pub fn validate_and_extract(bytes: &[u8]) -> (r: Result<ExtractionOutcome, CoreError>)
    ensures
        result_view(r) == extraction(bytes@),
        !has_pdf_header(bytes@) ==> r is Err && r->Err_0@ == failure(
            ErrorKind::InvalidPdfHeader,
            None,
        ),
{
    match ERechnungService::validate_pdf_format(bytes) {
        Ok(_) => {},
        Err(e) => {
            return Err(e);
        },
    }
    let doc = match Document::open(bytes) {
        Ok(doc) => doc,
        Err(e) => {
            return Err(fail(e));
        },
    };
    match ERechnungService::validate_pdfa3_format(bytes, &doc) {
        Ok(_) => {},
        Err(e) => {
            return Err(e);
        },
    }
    let files = match ERechnungService::find_embedded_files(bytes, &doc) {
        Ok(files) => files,
        Err(e) => {
            return Err(e);
        },
    };
    match ERechnungService::find_xml_file(&files) {
        Ok(_) => {},
        Err(e) => {
            return Err(e);
        },
    }
    let cands = match ERechnungService::extract_xml_contents(bytes, &doc, &files) {
        Ok(cands) => cands,
        Err(e) => {
            return Err(e);
        },
    };
    let chosen = match ERechnungService::select_best_xml_content(cands, &files) {
        Ok(c) => c,
        Err(e) => {
            return Err(e);
        },
    };
    Ok(
        ExtractionOutcome {
            embedded_filenames: listing(&files),
            selected_xml_filename: decode_lossy(chosen.filename.as_slice()),
            selected_xml_text: decode_lossy(chosen.payload.as_slice()),
            status_label: ERechnungService::determine_status(chosen.filename.as_slice()),
        },
    )
}

/// The signature that a PDF must begin with is the five bytes `%`, `P`,
/// `D`, `F` and `-`.
pub proof fn lemma_pdf_signature()
    ensures
        ascii("%PDF-") == seq![0x25u8, 0x50u8, 0x44u8, 0x46u8, 0x2du8],
{
    reveal_strlit("%PDF-");
    broadcast use vstd::string::group_string_axioms;

    assert("%PDF-".is_ascii());
    assert(ascii("%PDF-") =~= seq![0x25u8, 0x50u8, 0x44u8, 0x46u8, 0x2du8]);
}

/// Bytes that do not begin with `%PDF-` are refused as `InvalidPdfHeader`,
/// with nothing attached, whatever else they hold.
pub proof fn lemma_header_is_required(s: Seq<u8>)
    requires
        s.len() < 5 || s[0] != 0x25 || s[1] != 0x50 || s[2] != 0x44 || s[3] != 0x46 || s[4]
            != 0x2d,
    ensures
        extraction(s) == Err::<OutcomeView, CoreErrorView>(
            CoreErrorView { kind: ErrorKind::InvalidPdfHeader, embedded_filenames: None },
        ),
{
    lemma_pdf_signature();
    if s.len() >= 5 {
        let head = s.subrange(0, 5);
        assert(head[0] == s[0] && head[1] == s[1] && head[2] == s[2] && head[3] == s[3]
            && head[4] == s[4]);
    }
}

/// A document whose metadata declares another part than 3 fails with
/// `NotPDFA3`, whatever files are embedded in it: the check comes before the
/// files are looked at.
pub proof fn lemma_other_part_is_refused(s: Seq<u8>, doc: DocumentView, xml: Seq<u8>, part: Seq<u8>)
    requires
        has_pdf_header(s),
        opened(s) == Ok::<DocumentView, ErrorKind>(doc),
        metadata_packet(s, doc) == Some(xml),
        property_value(xml, ascii("pdfaid:part")) == Some(part),
        part != ascii("3"),
    ensures
        extraction(s) == Err::<OutcomeView, CoreErrorView>(
            CoreErrorView { kind: ErrorKind::NotPDFA3, embedded_filenames: None },
        ),
{
    reveal(passes_pdfa3);
}

/// A document without metadata that can be decoded fails with `NotPDFA3`.
pub proof fn lemma_missing_metadata_is_refused(s: Seq<u8>, doc: DocumentView)
    requires
        has_pdf_header(s),
        opened(s) == Ok::<DocumentView, ErrorKind>(doc),
        metadata_packet(s, doc) is None,
    ensures
        extraction(s) == Err::<OutcomeView, CoreErrorView>(
            CoreErrorView { kind: ErrorKind::NotPDFA3, embedded_filenames: None },
        ),
{
    reveal(passes_pdfa3);
}

/// A PDF/A-3 document with embedded files of which none has a name ending in
/// `.xml` fails with `NoXmlCandidate`, and the failure carries the names of
/// all its files: as many names as files, and at least one.
pub proof fn lemma_no_xml_name_is_reported(s: Seq<u8>, doc: DocumentView, files: Seq<FileView>)
    requires
        has_pdf_header(s),
        opened(s) == Ok::<DocumentView, ErrorKind>(doc),
        passes_pdfa3(s, doc),
        embedded_files(s, doc.records, doc.catalog) == Ok::<Seq<FileView>, ErrorKind>(files),
        files.len() > 0,
        forall|i: int| 0 <= i < files.len() ==> !is_xml_name(files[i].filename),
    ensures
        extraction(s) == Err::<OutcomeView, CoreErrorView>(
            CoreErrorView {
                kind: ErrorKind::NoXmlCandidate,
                embedded_filenames: Some(names_text(files)),
            },
        ),
        names_text(files).len() == files.len(),
        names_text(files).len() > 0,
{
    reveal(found_files);
    lemma_first_xml(files, 0);
}

/// A PDF/A-3 document with XML files of which none can be decoded fails with
/// `ExtractionFailed`, and the failure carries the names of all its files.
pub proof fn lemma_undecodable_is_reported(s: Seq<u8>, doc: DocumentView, files: Seq<FileView>)
    requires
        has_pdf_header(s),
        opened(s) == Ok::<DocumentView, ErrorKind>(doc),
        passes_pdfa3(s, doc),
        embedded_files(s, doc.records, doc.catalog) == Ok::<Seq<FileView>, ErrorKind>(files),
        first_xml(files, 0) is Some,
        candidates(s, doc.records, files, 0, Seq::empty()).len() == 0,
    ensures
        extraction(s) == Err::<OutcomeView, CoreErrorView>(
            CoreErrorView {
                kind: ErrorKind::ExtractionFailed,
                embedded_filenames: Some(names_text(files)),
            },
        ),
{
    reveal(found_files);
    lemma_first_xml(files, 0);
}

/// Where the extraction succeeds and some candidate holds the marker `<rsm:`,
/// the text returned is that of a candidate which holds it, and the name is
/// that of the same candidate.
pub proof fn lemma_outcome_prefers_marker(
    s: Seq<u8>,
    doc: DocumentView,
    files: Seq<FileView>,
    k: int,
)
    requires
        has_pdf_header(s),
        opened(s) == Ok::<DocumentView, ErrorKind>(doc),
        passes_pdfa3(s, doc),
        found_files(s, doc) == Ok::<Seq<FileView>, CoreErrorView>(files),
        first_xml(files, 0) is Some,
        0 <= k < candidates(s, doc.records, files, 0, Seq::empty()).len(),
        has_marker(candidates(s, doc.records, files, 0, Seq::empty())[k].payload),
    ensures
        ({
            let cands = candidates(s, doc.records, files, 0, Seq::empty());
            let chosen = cands[selected_index(cands)];
            &&& has_marker(chosen.payload)
            &&& extraction(s) == Ok::<OutcomeView, CoreErrorView>(outcome_of(files, chosen))
        }),
{
    let cands = candidates(s, doc.records, files, 0, Seq::empty());
    lemma_selection_prefers_marker(cands, k);
}

/// A filter that is not implemented and data that cannot be decoded never
/// fail the extraction by themselves: whatever the bytes, it does not end in
/// `UnsupportedFilter` or `FilterDecodeError`. Such a stream is passed over,
/// and only where no candidate is left the extraction fails, with
/// `ExtractionFailed`.
pub proof fn lemma_filter_errors_stay_local(s: Seq<u8>)
    ensures
        extraction(s) matches Err(e) ==> e.kind != ErrorKind::UnsupportedFilter && e.kind
            != ErrorKind::FilterDecodeError,
{
    if has_pdf_header(s) {
        reveal(opened);
        lemma_resolved_errors(s);
        match opened(s) {
            Err(e) => {},
            Ok(doc) => {
                reveal(found_files);
                match fetched(s, doc.records, doc.catalog, ascii("Names")) {
                    Ok(Some(Value::Dictionary(names))) => {
                        match fetched(s, doc.records, names, ascii("EmbeddedFiles")) {
                            Ok(Some(Value::Dictionary(root))) => {
                                lemma_walk_errors(
                                    s,
                                    doc.records,
                                    root,
                                    MAX_TREE_DEPTH as nat,
                                    MAX_TREE_NODES as nat,
                                    Seq::empty(),
                                );
                            },
                            _ => {},
                        }
                    },
                    _ => {},
                }
            },
        }
    }
}

/// An outcome whose chosen file is named `factur-x.xml` carries that name
/// and the label `Success`.
pub proof fn lemma_canonical_outcome(files: Seq<FileView>, chosen: CandidateView)
    requires
        chosen.filename == ascii("factur-x.xml"),
    ensures
        outcome_of(files, chosen).selected_xml_filename == "factur-x.xml"@,
        outcome_of(files, chosen).status_label == "Success"@,
{
    lemma_text_round_trip("factur-x.xml"@);
}

/// The name of the chosen file is returned as it is stored, in the case of
/// its letters too: where the stored name is valid UTF-8, the name in the
/// outcome encodes to the very bytes that are stored. The label looks at the
/// name without regard to case.
pub proof fn lemma_name_is_kept(files: Seq<FileView>, chosen: CandidateView)
    requires
        valid_utf8(chosen.filename),
    ensures
        encode_utf8(outcome_of(files, chosen).selected_xml_filename) == chosen.filename,
        outcome_of(files, chosen).status_label == "Success"@ <==> eq_ignore_case(
            chosen.filename,
            ascii("factur-x.xml"),
        ),
{
    lemma_valid_bytes_are_kept(chosen.filename);
    if "Success"@ == "XML is not Factur-x.xml"@ {
        reveal_strlit("Success");
        reveal_strlit("XML is not Factur-x.xml");
        assert("Success"@.len() == 7);
        assert("XML is not Factur-x.xml"@.len() == 23);
    }
}

/// The candidate stands for one of the files from index `from` on: it has
/// the name of a file whose name ends in `.xml`, and the decoded content of
/// that file.
pub open spec fn comes_from(
    s: Seq<u8>,
    records: Seq<XrefRecord>,
    files: Seq<FileView>,
    c: CandidateView,
) -> bool {
    exists|i: int|
        0 <= i < files.len() && is_xml_name(#[trigger] files[i].filename) && c.filename
            == files[i].filename && payload_of(s, records, files[i]) == Some(c.payload)
}

proof fn lemma_candidates_from(
    s: Seq<u8>,
    records: Seq<XrefRecord>,
    files: Seq<FileView>,
    i: int,
    acc: Seq<CandidateView>,
)
    requires
        0 <= i,
        forall|k: int| 0 <= k < acc.len() ==> comes_from(s, records, files, #[trigger] acc[k]),
    ensures
        forall|k: int|
            0 <= k < candidates(s, records, files, i, acc).len() ==> comes_from(
                s,
                records,
                files,
                #[trigger] candidates(s, records, files, i, acc)[k],
            ),
    decreases files.len() - i,
{
    if i < files.len() {
        if is_xml_name(files[i].filename) {
            match payload_of(s, records, files[i]) {
                Some(payload) => {
                    let c = CandidateView { filename: files[i].filename, payload };
                    let next = acc.push(c);
                    assert(comes_from(s, records, files, c));
                    assert forall|k: int| 0 <= k < next.len() implies comes_from(
                        s,
                        records,
                        files,
                        #[trigger] next[k],
                    ) by {
                        if k < acc.len() {
                            assert(next[k] == acc[k]);
                        }
                    }
                    lemma_candidates_from(s, records, files, i + 1, next);
                    assert(candidates(s, records, files, i, acc) == candidates(
                        s,
                        records,
                        files,
                        i + 1,
                        next,
                    ));
                },
                None => {
                    lemma_candidates_from(s, records, files, i + 1, acc);
                    assert(candidates(s, records, files, i, acc) == candidates(
                        s,
                        records,
                        files,
                        i + 1,
                        acc,
                    ));
                },
            }
        } else {
            lemma_candidates_from(s, records, files, i + 1, acc);
            assert(candidates(s, records, files, i, acc) == candidates(
                s,
                records,
                files,
                i + 1,
                acc,
            ));
        }
    } else {
        assert(candidates(s, records, files, i, acc) == acc);
    }
}

/// Every candidate is one of the embedded files: a file whose name ends in
/// `.xml`, with its decoded content. Nothing else is ever chosen.
pub proof fn lemma_candidates_are_files(
    s: Seq<u8>,
    records: Seq<XrefRecord>,
    files: Seq<FileView>,
    k: int,
)
    requires
        0 <= k < candidates(s, records, files, 0, Seq::empty()).len(),
    ensures
        comes_from(s, records, files, candidates(s, records, files, 0, Seq::empty())[k]),
{
    lemma_candidates_from(s, records, files, 0, Seq::empty());
}

} // verus!
