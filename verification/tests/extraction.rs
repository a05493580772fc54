use extract_xml_rechnung::document::Document;
use extract_xml_rechnung::error::ErrorKind;
use extract_xml_rechnung::erechnung_pdf_service::{validate_and_extract, ERechnungService};
use miniz_oxide::deflate::compress_to_vec_zlib;

/// Assembles a PDF with a cross-reference table from numbered object bodies.
fn build_pdf(objects: &[(u32, Vec<u8>)], root: u32) -> Vec<u8> {
    let mut out: Vec<u8> = b"%PDF-1.7\n%\xe2\xe3\xcf\xd3\n".to_vec();
    let max = objects.iter().map(|(n, _)| *n).max().unwrap_or(0);
    let mut offsets: Vec<Option<usize>> = vec![None; max as usize + 1];
    for (number, body) in objects {
        offsets[*number as usize] = Some(out.len());
        out.extend_from_slice(format!("{} 0 obj\n", number).as_bytes());
        out.extend_from_slice(body);
        out.extend_from_slice(b"\nendobj\n");
    }
    let xref_at = out.len();
    out.extend_from_slice(format!("xref\n0 {}\n", max + 1).as_bytes());
    for (number, offset) in offsets.iter().enumerate() {
        match offset {
            Some(o) if number > 0 => {
                out.extend_from_slice(format!("{:010} 00000 n \n", o).as_bytes())
            }
            _ => out.extend_from_slice(b"0000000000 65535 f \n"),
        }
    }
    out.extend_from_slice(
        format!("trailer\n<< /Size {} /Root {} 0 R >>\nstartxref\n{}\n%%EOF\n", max + 1, root, xref_at)
            .as_bytes(),
    );
    out
}

fn stream(dict: &str, data: &[u8]) -> Vec<u8> {
    let mut out = format!("<< {} /Length {} >>\nstream\n", dict, data.len()).into_bytes();
    out.extend_from_slice(data);
    out.extend_from_slice(b"\nendstream");
    out
}

fn xmp(part: &str) -> Vec<u8> {
    format!(
        "<?xpacket begin=\"\" id=\"W5M0MpCehiHzreSzNTczkc9d\"?>\n<x:xmpmeta xmlns:x=\"adobe:ns:meta/\">\n<rdf:RDF xmlns:rdf=\"http://www.w3.org/1999/02/22-rdf-syntax-ns#\">\n<rdf:Description rdf:about=\"\" xmlns:pdfaid=\"http://www.aiim.org/pdfa/ns/id/\">\n<pdfaid:part>{}</pdfaid:part>\n<pdfaid:conformance>B</pdfaid:conformance>\n</rdf:Description>\n</rdf:RDF>\n</x:xmpmeta>\n<?xpacket end=\"w\"?>",
        part
    )
    .into_bytes()
}

/// A PDF/A document with the given attachments, each a name and a content.
fn invoice_pdf(part: &str, files: &[(&str, &[u8])]) -> Vec<u8> {
    let mut objects: Vec<(u32, Vec<u8>)> = Vec::new();
    objects.push((1, b"<< /Type /Catalog /Pages 2 0 R /Metadata 3 0 R /Names << /EmbeddedFiles 4 0 R >> >>".to_vec()));
    objects.push((2, b"<< /Type /Pages /Kids [] /Count 0 >>".to_vec()));
    objects.push((3, stream("/Type /Metadata /Subtype /XML", &xmp(part))));
    let mut names = String::from("<< /Names [");
    for (i, (name, _)) in files.iter().enumerate() {
        names.push_str(&format!(" ({}) {} 0 R", name, 10 + 2 * i));
    }
    names.push_str(" ] >>");
    objects.push((4, names.into_bytes()));
    for (i, (name, content)) in files.iter().enumerate() {
        let spec = 10 + 2 * i as u32;
        objects.push((
            spec,
            format!(
                "<< /Type /Filespec /F ({}) /UF ({}) /EF << /F {} 0 R >> >>",
                name,
                name,
                spec + 1
            )
            .into_bytes(),
        ));
        objects.push((spec + 1, stream("/Type /EmbeddedFile /Subtype /text#2Fxml", content)));
    }
    build_pdf(&objects, 1)
}

#[test]
fn rejects_buffer_without_pdf_signature() {
    let err = validate_and_extract(b"GIF89a not a pdf").unwrap_err();
    assert_eq!(err.kind, ErrorKind::InvalidPdfHeader);
    assert!(err.embedded_filenames.is_none());
    let err = validate_and_extract(b"%PDF").unwrap_err();
    assert_eq!(err.kind, ErrorKind::InvalidPdfHeader);
    let err = validate_and_extract(b"").unwrap_err();
    assert_eq!(err.kind, ErrorKind::InvalidPdfHeader);
}

#[test]
fn extracts_single_factur_x_attachment() {
    let xml = b"<?xml version=\"1.0\"?><rsm:CrossIndustryInvoice>42</rsm:CrossIndustryInvoice>";
    let pdf = invoice_pdf("3", &[("factur-x.xml", xml)]);
    let outcome = validate_and_extract(&pdf).unwrap();
    assert_eq!(outcome.selected_xml_filename, "factur-x.xml");
    assert_eq!(outcome.status_label, "Success");
    assert_eq!(outcome.selected_xml_text.as_bytes(), xml);
    assert_eq!(outcome.embedded_filenames, vec!["factur-x.xml".to_string()]);
}

#[test]
fn process_pdf_joins_the_listing() {
    let pdf = invoice_pdf("3", &[("notes.txt", b"hello"), ("Invoice.XML", b"<rsm:X/>")]);
    let response = ERechnungService::process_pdf(pdf).unwrap();
    assert_eq!(response.embedded_files, "notes.txt, Invoice.XML");
    assert_eq!(response.xml_filename, "Invoice.XML");
    assert_eq!(response.file_status, "XML is not Factur-x.xml");
    assert_eq!(response.xml_content, "<rsm:X/>");
}

const INVOICE: &[u8] = b"<?xml version=\"1.0\"?><rsm:CrossIndustryInvoice>1</rsm:CrossIndustryInvoice>";

const OTHER: &[u8] = b"<?xml version=\"1.0\"?><note>no invoice</note>";

fn replace(pdf: &[u8], from: &str, to: &str) -> Vec<u8> {
    assert_eq!(from.len(), to.len());
    let text: Vec<u8> = pdf.to_vec();
    let at = text.windows(from.len()).position(|w| w == from.as_bytes()).unwrap();
    let mut out = text;
    out[at..at + from.len()].copy_from_slice(to.as_bytes());
    out
}

#[test]
fn header_check_looks_at_five_bytes() {
    assert!(ERechnungService::validate_pdf_format(b"%PDF-").is_ok());
    assert!(ERechnungService::validate_pdf_format(b"%PDF-1.7 and more").is_ok());
    for bad in [&b"%PDF"[..], b" %PDF-1.7", b"%pdf-1.7", b"%PDF_1.7", b"PDF-1.7"] {
        let err = ERechnungService::validate_pdf_format(bad).unwrap_err();
        assert_eq!(err.kind, ErrorKind::InvalidPdfHeader);
        assert_eq!(err.embedded_filenames, None);
    }
}

#[test]
fn signature_alone_has_no_trailer() {
    let err = validate_and_extract(b"%PDF-1.7\n").unwrap_err();
    assert_eq!(err.kind, ErrorKind::MissingTrailer);
    assert_eq!(err.embedded_filenames, None);
}

#[test]
fn marker_decides_whatever_the_order() {
    let first = invoice_pdf("3", &[("invoice.xml", INVOICE), ("other.xml", OTHER)]);
    let outcome = validate_and_extract(&first).unwrap();
    assert_eq!(outcome.selected_xml_filename, "invoice.xml");
    assert_eq!(outcome.selected_xml_text.as_bytes(), INVOICE);
    let second = invoice_pdf("3", &[("other.xml", OTHER), ("invoice.xml", INVOICE)]);
    let outcome = validate_and_extract(&second).unwrap();
    assert_eq!(outcome.selected_xml_filename, "invoice.xml");
    assert_eq!(outcome.selected_xml_text.as_bytes(), INVOICE);
    assert_eq!(
        outcome.embedded_filenames,
        vec!["other.xml".to_string(), "invoice.xml".to_string()]
    );
    assert_eq!(outcome.status_label, "XML is not Factur-x.xml");
}

#[test]
fn first_candidate_is_taken_where_none_has_the_marker() {
    let pdf = invoice_pdf("3", &[("a.txt", b"<rsm:in a text file"), ("b.xml", OTHER), ("c.xml", b"<c/>")]);
    let outcome = validate_and_extract(&pdf).unwrap();
    assert_eq!(outcome.selected_xml_filename, "b.xml");
    assert_eq!(outcome.selected_xml_text.as_bytes(), OTHER);
}

#[test]
fn name_is_returned_as_stored_and_label_ignores_case() {
    let pdf = invoice_pdf("3", &[("Factur-X.XML", INVOICE)]);
    let outcome = validate_and_extract(&pdf).unwrap();
    assert_eq!(outcome.selected_xml_filename, "Factur-X.XML");
    assert_eq!(outcome.status_label, "Success");
}

#[test]
fn part_one_is_not_pdfa3() {
    let pdf = invoice_pdf("1", &[("factur-x.xml", INVOICE)]);
    let err = validate_and_extract(&pdf).unwrap_err();
    assert_eq!(err.kind, ErrorKind::NotPDFA3);
    assert_eq!(err.embedded_filenames, None);
    for part in ["2", "", "3b"] {
        let err = validate_and_extract(&invoice_pdf(part, &[("factur-x.xml", INVOICE)])).unwrap_err();
        assert_eq!(err.kind, ErrorKind::NotPDFA3);
    }
}

#[test]
fn missing_metadata_is_not_pdfa3() {
    let pdf = replace(&invoice_pdf("3", &[("factur-x.xml", INVOICE)]), "/Metadata 3 0 R", "/Metadatx 3 0 R");
    assert_eq!(validate_and_extract(&pdf).unwrap_err().kind, ErrorKind::NotPDFA3);
    let pdf = replace(&invoice_pdf("3", &[("factur-x.xml", INVOICE)]), "/Metadata 3 0 R", "/Metadata 2 0 R");
    assert_eq!(validate_and_extract(&pdf).unwrap_err().kind, ErrorKind::NotPDFA3);
    let pdf = replace(&invoice_pdf("3", &[("factur-x.xml", INVOICE)]), "/Metadata 3 0 R", "/Metadata 9 0 R");
    assert_eq!(validate_and_extract(&pdf).unwrap_err().kind, ErrorKind::NotPDFA3);
}

#[test]
fn pdfa_check_comes_before_the_files() {
    let pdf = replace(&invoice_pdf("1", &[("factur-x.xml", INVOICE)]), "/Names << /EmbeddedFiles", "/Nomes << /EmbeddedFiles");
    assert_eq!(validate_and_extract(&pdf).unwrap_err().kind, ErrorKind::NotPDFA3);
}

#[test]
fn files_without_xml_name_are_listed_in_the_failure() {
    let pdf = invoice_pdf("3", &[("notes.txt", b"hello"), ("scan.pdf", INVOICE)]);
    let err = validate_and_extract(&pdf).unwrap_err();
    assert_eq!(err.kind, ErrorKind::NoXmlCandidate);
    assert_eq!(
        err.embedded_filenames,
        Some(vec!["notes.txt".to_string(), "scan.pdf".to_string()])
    );
    let response = ERechnungService::process_pdf(pdf).unwrap_err();
    assert_eq!(response.file_status, "NoXmlCandidate");
    assert_eq!(response.embedded_files, Some("notes.txt, scan.pdf".to_string()));
}

#[test]
fn document_without_files_has_no_candidate() {
    let err = validate_and_extract(&invoice_pdf("3", &[])).unwrap_err();
    assert_eq!(err.kind, ErrorKind::NoXmlCandidate);
    assert_eq!(err.embedded_filenames, None);
}

#[test]
fn document_without_name_tree_has_no_embedded_files() {
    let pdf = replace(&invoice_pdf("3", &[("factur-x.xml", INVOICE)]), "/Names << /EmbeddedFiles", "/Nomes << /EmbeddedFiles");
    let err = validate_and_extract(&pdf).unwrap_err();
    assert_eq!(err.kind, ErrorKind::NoEmbeddedFiles);
    assert_eq!(err.embedded_filenames, None);
    let response = ERechnungService::process_pdf(pdf).unwrap_err();
    assert_eq!(response.file_status, "NoEmbeddedFiles");
    assert_eq!(response.embedded_files, None);
}

/// As `invoice_pdf`, with each attachment stored under the given filter.
fn filtered_pdf(files: &[(&str, &str, Vec<u8>)]) -> Vec<u8> {
    let mut objects: Vec<(u32, Vec<u8>)> = Vec::new();
    objects.push((1, b"<< /Type /Catalog /Metadata 3 0 R /Names << /EmbeddedFiles 4 0 R >> >>".to_vec()));
    objects.push((3, stream("/Type /Metadata /Subtype /XML /Filter /FlateDecode", &compress_to_vec_zlib(&xmp("3"), 6))));
    let mut names = String::from("<< /Names [");
    for (i, (name, _, _)) in files.iter().enumerate() {
        names.push_str(&format!(" ({}) {} 0 R", name, 10 + 2 * i));
    }
    names.push_str(" ] >>");
    objects.push((4, names.into_bytes()));
    for (i, (name, filter, stored)) in files.iter().enumerate() {
        let spec = 10 + 2 * i as u32;
        objects.push((spec, format!("<< /UF ({}) /EF << /F {} 0 R >> >>", name, spec + 1).into_bytes()));
        objects.push((spec + 1, stream(&format!("/Type /EmbeddedFile /Filter {}", filter), stored)));
    }
    build_pdf(&objects, 1)
}

#[test]
fn compressed_attachment_and_metadata_are_decoded() {
    let pdf = filtered_pdf(&[("factur-x.xml", "/FlateDecode", compress_to_vec_zlib(INVOICE, 9))]);
    let outcome = validate_and_extract(&pdf).unwrap();
    assert_eq!(outcome.selected_xml_text.as_bytes(), INVOICE);
    assert_eq!(outcome.status_label, "Success");
}

#[test]
fn large_attachment_is_decoded() {
    let mut xml = b"<rsm:CrossIndustryInvoice>".to_vec();
    for i in 0..20000 {
        xml.extend_from_slice(format!("<line>{}</line>", i).as_bytes());
    }
    xml.extend_from_slice(b"</rsm:CrossIndustryInvoice>");
    assert!(xml.len() > 65536);
    let pdf = filtered_pdf(&[("factur-x.xml", "/FlateDecode", compress_to_vec_zlib(&xml, 6))]);
    let outcome = validate_and_extract(&pdf).unwrap();
    assert_eq!(outcome.selected_xml_text.as_bytes(), &xml[..]);
}

#[test]
fn attachment_that_cannot_be_decoded_is_passed_over() {
    let pdf = filtered_pdf(&[
        ("broken.xml", "/FlateDecode", b"not zlib".to_vec()),
        ("exotic.xml", "/LZWDecode", b"<rsm:unreadable".to_vec()),
        ("plain.xml", "[]", OTHER.to_vec()),
    ]);
    let outcome = validate_and_extract(&pdf).unwrap();
    assert_eq!(outcome.selected_xml_filename, "plain.xml");
    assert_eq!(outcome.selected_xml_text.as_bytes(), OTHER);
    assert_eq!(
        outcome.embedded_filenames,
        vec!["broken.xml".to_string(), "exotic.xml".to_string(), "plain.xml".to_string()]
    );
}

#[test]
fn no_decodable_candidate_is_an_extraction_failure() {
    let pdf = filtered_pdf(&[
        ("notes.txt", "[]", b"fine".to_vec()),
        ("broken.xml", "/FlateDecode", b"not zlib".to_vec()),
        ("exotic.xml", "/LZWDecode", b"<rsm:unreadable".to_vec()),
    ]);
    let err = validate_and_extract(&pdf).unwrap_err();
    assert_eq!(err.kind, ErrorKind::ExtractionFailed);
    assert_eq!(
        err.embedded_filenames,
        Some(vec!["notes.txt".to_string(), "broken.xml".to_string(), "exotic.xml".to_string()])
    );
    let response = ERechnungService::process_pdf(pdf).unwrap_err();
    assert_eq!(response.file_status, "ExtractionFailed");
    assert_eq!(response.embedded_files, Some("notes.txt, broken.xml, exotic.xml".to_string()));
}

#[test]
fn attachment_without_stream_is_an_extraction_failure() {
    let pdf = replace(&invoice_pdf("3", &[("factur-x.xml", INVOICE)]), "/EF << /F 11 0 R >>", "/EG << /F 11 0 R >>");
    let err = validate_and_extract(&pdf).unwrap_err();
    assert_eq!(err.kind, ErrorKind::ExtractionFailed);
    assert_eq!(err.embedded_filenames, Some(vec!["factur-x.xml".to_string()]));
}

#[test]
fn content_that_is_not_utf8_is_decoded_with_replacements() {
    let pdf = invoice_pdf("3", &[("factur-x.xml", b"<rsm:a>\xff\xfe</rsm:a>")]);
    let outcome = validate_and_extract(&pdf).unwrap();
    assert_eq!(outcome.selected_xml_text, "<rsm:a>\u{FFFD}\u{FFFD}</rsm:a>");
}

#[test]
fn cyclic_name_tree_is_too_deep() {
    let pdf = replace(
        &invoice_pdf("3", &[("factur-x.xml", INVOICE)]),
        "<< /Names [ (factur-x.xml) 10 0 R ] >>",
        "<< /Kids  [ 4 0 R                 ] >>",
    );
    let err = validate_and_extract(&pdf).unwrap_err();
    assert_eq!(err.kind, ErrorKind::TreeTooDeep);
    assert_eq!(err.embedded_filenames, None);
    assert_eq!(ERechnungService::process_pdf(pdf).unwrap_err().file_status, "TreeTooDeep");
}

#[test]
fn root_that_refers_to_itself_is_cyclic() {
    let pdf = build_pdf(&[(1, b"1 0 R".to_vec())], 1);
    let err = validate_and_extract(&pdf).unwrap_err();
    assert_eq!(err.kind, ErrorKind::CyclicReference);
    assert_eq!(ERechnungService::process_pdf(pdf).unwrap_err().file_status, "CyclicReference");
}

#[test]
fn corrupt_table_is_reported() {
    let pdf = replace(&invoice_pdf("3", &[("factur-x.xml", INVOICE)]), " 00000 n \n", " 00000 x \n");
    let err = validate_and_extract(&pdf).unwrap_err();
    assert_eq!(err.kind, ErrorKind::CorruptXref);
    assert_eq!(ERechnungService::process_pdf(pdf).unwrap_err().file_status, "CorruptXref");
    let pdf = replace(&invoice_pdf("3", &[("factur-x.xml", INVOICE)]), "trailer\n<<", "trailer\n[[");
    let err = validate_and_extract(&pdf).unwrap_err();
    assert_eq!(err.kind, ErrorKind::MissingTrailer);
    assert_eq!(ERechnungService::process_pdf(pdf).unwrap_err().file_status, "MissingTrailer");
}

#[test]
fn answers_name_the_kind_of_failure() {
    let response = ERechnungService::process_pdf(b"no pdf".to_vec()).unwrap_err();
    assert_eq!(response.file_status, "InvalidPdfHeader");
    assert_eq!(response.embedded_files, None);
    let response = ERechnungService::process_pdf(invoice_pdf("2", &[])).unwrap_err();
    assert_eq!(response.file_status, "NotPDFA3");
    assert_eq!(response.embedded_files, None);
}

#[test]
fn successful_answer_carries_the_outcome() {
    let pdf = invoice_pdf("3", &[("factur-x.xml", INVOICE)]);
    let response = ERechnungService::process_pdf(pdf).unwrap();
    assert_eq!(response.file_status, "Success");
    assert_eq!(response.embedded_files, "factur-x.xml");
    assert_eq!(response.xml_filename, "factur-x.xml");
    assert_eq!(response.xml_content.as_bytes(), INVOICE);
}

#[test]
fn stages_can_be_run_one_by_one() {
    let pdf = invoice_pdf("3", &[("readme.txt", b"text"), ("factur-x.xml", INVOICE)]);
    assert!(ERechnungService::validate_pdf_format(&pdf).is_ok());
    let doc = Document::open(&pdf).unwrap();
    assert!(ERechnungService::validate_pdfa3_format(&pdf, &doc).is_ok());
    let files = ERechnungService::find_embedded_files(&pdf, &doc).unwrap();
    assert_eq!(files.len(), 2);
    assert_eq!(ERechnungService::find_xml_file(&files), Ok(b"factur-x.xml".to_vec()));
    let cands = ERechnungService::extract_xml_contents(&pdf, &doc, &files).unwrap();
    assert_eq!(cands.len(), 1);
    assert_eq!(cands[0].filename, b"factur-x.xml".to_vec());
    assert_eq!(cands[0].payload, INVOICE.to_vec());
    let chosen = ERechnungService::select_best_xml_content(cands, &files).unwrap();
    assert_eq!(chosen.payload, INVOICE.to_vec());
}

#[test]
fn later_revision_replaces_the_attachment() {
    let mut pdf = invoice_pdf("3", &[("factur-x.xml", OTHER)]);
    let first_xref = pdf.windows(7).rposition(|w| w == b"xref\n0 ").unwrap();
    let at = pdf.len();
    pdf.extend_from_slice(b"11 0 obj\n");
    pdf.extend_from_slice(&stream("/Type /EmbeddedFile", INVOICE));
    pdf.extend_from_slice(b"\nendobj\n");
    let xref_at = pdf.len();
    pdf.extend_from_slice(
        format!(
            "xref\n11 1\n{:010} 00000 n \ntrailer\n<< /Size 12 /Root 1 0 R /Prev {} >>\nstartxref\n{}\n%%EOF\n",
            at, first_xref, xref_at
        )
        .as_bytes(),
    );
    let outcome = validate_and_extract(&pdf).unwrap();
    assert_eq!(outcome.selected_xml_text.as_bytes(), INVOICE);
}

#[test]
fn crate_root_offers_the_entry_points() {
    let pdf = invoice_pdf("3", &[("factur-x.xml", INVOICE)]);
    let outcome: extract_xml_rechnung::ExtractionOutcome =
        extract_xml_rechnung::validate_and_extract(&pdf).unwrap();
    assert_eq!(outcome.status_label, "Success");
    let response: Result<extract_xml_rechnung::SuccessResponse, extract_xml_rechnung::ErrorResponse> =
        extract_xml_rechnung::ERechnungService::process_pdf(pdf);
    assert!(response.is_ok());
    let err: extract_xml_rechnung::CoreError =
        extract_xml_rechnung::validate_and_extract(b"").unwrap_err();
    assert_eq!(err.kind, extract_xml_rechnung::ErrorKind::InvalidPdfHeader);
}

#[test]
fn damaged_files_give_a_result_and_never_a_panic() {
    let base = filtered_pdf(&[
        ("factur-x.xml", "/FlateDecode", compress_to_vec_zlib(INVOICE, 6)),
        ("other.xml", "[]", OTHER.to_vec()),
    ]);
    assert!(validate_and_extract(&base).is_ok());
    let mut state: u64 = 0x2545_F491_4F6C_DD1D;
    let mut next = move || {
        state ^= state << 13;
        state ^= state >> 7;
        state ^= state << 17;
        state
    };
    let mut failures = 0;
    for round in 0..3000 {
        let mut pdf = base.clone();
        let changes = 1 + (next() % 4) as usize;
        for _ in 0..changes {
            let at = 5 + (next() as usize) % (pdf.len() - 5);
            match round % 3 {
                0 => pdf[at] = next() as u8,
                1 => pdf.truncate(at.max(6)),
                _ => pdf.insert(at, b"<<[(/>>])%"[(next() % 10) as usize]),
            }
        }
        if validate_and_extract(&pdf).is_err() {
            failures += 1;
        }
    }
    assert!(failures > 0);
}
