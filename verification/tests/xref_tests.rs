use extract_xml_rechnung::document::{load_object, resolve_reference};
use extract_xml_rechnung::error::ErrorKind;
use extract_xml_rechnung::object::{dict_lookup, ObjRef, PdfObject};
use extract_xml_rechnung::revisions::{read_section, resolve_xref, MAX_REVISIONS};
use extract_xml_rechnung::xref::{lookup, read_subsections, XrefEntry, XrefRecord};
use extract_xml_rechnung::xref_stream::read_xref_stream;
use miniz_oxide::deflate::compress_to_vec_zlib;

fn in_use(number: u32, offset: usize) -> XrefRecord {
    XrefRecord { number, entry: XrefEntry::InUse { offset, generation: 0 } }
}

fn free(number: u32) -> XrefRecord {
    XrefRecord { number, entry: XrefEntry::Free }
}

/// Appends a revision with the given objects and returns the offset of its
/// cross-reference table.
fn append_revision(
    out: &mut Vec<u8>,
    objects: &[(u32, &str)],
    trailer_extra: &str,
    prev: Option<usize>,
) -> usize {
    let mut offsets = Vec::new();
    for (number, body) in objects {
        offsets.push((*number, out.len()));
        out.extend_from_slice(format!("{} 0 obj\n{}\nendobj\n", number, body).as_bytes());
    }
    let xref_at = out.len();
    out.extend_from_slice(b"xref\n");
    for (number, offset) in &offsets {
        out.extend_from_slice(format!("{} 1\n{:010} 00000 n \n", number, offset).as_bytes());
    }
    let prev = match prev {
        Some(p) => format!(" /Prev {}", p),
        None => String::new(),
    };
    out.extend_from_slice(
        format!(
            "trailer\n<< /Size 20 /Root 1 0 R{}{} >>\nstartxref\n{}\n%%EOF\n",
            prev, trailer_extra, xref_at
        )
        .as_bytes(),
    );
    xref_at
}

#[test]
fn subsections_of_a_table() {
    let table = b"0 2\n0000000000 65535 f \n0000000017 00000 n \n5 1\n0000000099 00002 n \ntrailer\n<< >>";
    let (records, pos) = read_subsections(table, 0).unwrap();
    assert_eq!(
        records,
        vec![
            free(0),
            in_use(1, 17),
            XrefRecord { number: 5, entry: XrefEntry::InUse { offset: 99, generation: 2 } }
        ]
    );
    assert_eq!(&table[pos..], b"\n<< >>");
}

#[test]
fn malformed_table_lines_are_refused() {
    assert_eq!(read_subsections(b"0 1\n0000000000 65535 x \ntrailer", 0), None);
    assert_eq!(read_subsections(b"0 2\n0000000000 65535 f \ntrailer", 0), None);
    assert_eq!(read_subsections(b"0 1\n0000000000 f \ntrailer", 0), None);
    assert_eq!(read_subsections(b"0 1\n0000000000 70000 n \ntrailer", 0), None);
    assert_eq!(read_subsections(b"-1 1\n0000000000 00000 n \ntrailer", 0), None);
    assert_eq!(read_subsections(b"0 1\n0000000000 65535 f \n", 0), None);
    assert_eq!(read_subsections(b"0 1\n0000000000 65535 f \nendobj", 0), None);
    assert_eq!(read_subsections(b"4294967295 2\n1 0 n 2 0 n trailer", 0), None);
    assert_eq!(read_subsections(b"trailer", 0), Some((vec![], 7)));
}

#[test]
fn first_record_of_a_number_is_found() {
    let records = vec![in_use(7, 500), free(3), in_use(7, 100), in_use(3, 50), in_use(1, 9)];
    assert_eq!(lookup(&records, 7), Some(XrefEntry::InUse { offset: 500, generation: 0 }));
    assert_eq!(lookup(&records, 3), Some(XrefEntry::Free));
    assert_eq!(lookup(&records, 1), Some(XrefEntry::InUse { offset: 9, generation: 0 }));
    assert_eq!(lookup(&records, 2), None);
    assert_eq!(lookup(&Vec::new(), 0), None);
}

#[test]
fn single_revision_is_resolved() {
    let mut pdf = b"%PDF-1.4\n".to_vec();
    append_revision(&mut pdf, &[(1, "<< /Type /Catalog >>"), (7, "(first)")], "", None);
    let (records, trailer) = resolve_xref(&pdf).unwrap();
    assert_eq!(records.len(), 2);
    assert_eq!(lookup(&records, 1), Some(XrefEntry::InUse { offset: 9, generation: 0 }));
    assert_eq!(
        dict_lookup(&trailer, b"Root"),
        Some(&PdfObject::Reference(ObjRef { number: 1, generation: 0 }))
    );
    assert_eq!(load_object(&pdf, &records, 7), Ok(PdfObject::String(b"first".to_vec())));
}

#[test]
fn later_revision_overrides_object_seven() {
    let mut pdf = b"%PDF-1.4\n".to_vec();
    let first = append_revision(
        &mut pdf,
        &[(1, "<< /Type /Catalog >>"), (7, "(earlier content)"), (8, "(untouched)")],
        "",
        None,
    );
    let earlier_offset = {
        let (records, _) = resolve_xref(&pdf).unwrap();
        match lookup(&records, 7) {
            Some(XrefEntry::InUse { offset, .. }) => offset,
            other => panic!("unexpected: {:?}", other),
        }
    };
    append_revision(&mut pdf, &[(7, "(later content)")], "", Some(first));
    let (records, _) = resolve_xref(&pdf).unwrap();
    match lookup(&records, 7) {
        Some(XrefEntry::InUse { offset, .. }) => assert!(offset > earlier_offset),
        other => panic!("unexpected: {:?}", other),
    }
    assert_eq!(load_object(&pdf, &records, 7), Ok(PdfObject::String(b"later content".to_vec())));
    assert_eq!(
        resolve_reference(&pdf, &records, ObjRef { number: 7, generation: 0 }),
        Ok(PdfObject::String(b"later content".to_vec()))
    );
    assert_eq!(load_object(&pdf, &records, 8), Ok(PdfObject::String(b"untouched".to_vec())));
}

#[test]
fn three_revisions_latest_wins() {
    let mut pdf = b"%PDF-1.4\n".to_vec();
    let a = append_revision(&mut pdf, &[(1, "<< >>"), (7, "1"), (9, "(a)")], "", None);
    let b = append_revision(&mut pdf, &[(7, "2"), (5, "(b)")], "", Some(a));
    append_revision(&mut pdf, &[(7, "3")], "", Some(b));
    let (records, _) = resolve_xref(&pdf).unwrap();
    assert_eq!(records.iter().filter(|r| r.number == 7).count(), 3);
    assert_eq!(load_object(&pdf, &records, 7), Ok(PdfObject::Integer(3)));
    assert_eq!(load_object(&pdf, &records, 5), Ok(PdfObject::String(b"b".to_vec())));
    assert_eq!(load_object(&pdf, &records, 9), Ok(PdfObject::String(b"a".to_vec())));
}

#[test]
fn object_freed_in_a_later_revision_is_gone() {
    let mut pdf = b"%PDF-1.4\n".to_vec();
    let first = append_revision(&mut pdf, &[(1, "<< >>"), (7, "(here)")], "", None);
    let xref_at = pdf.len();
    pdf.extend_from_slice(
        format!(
            "xref\n7 1\n0000000000 00001 f \ntrailer\n<< /Root 1 0 R /Prev {} >>\nstartxref\n{}\n%%EOF\n",
            first, xref_at
        )
        .as_bytes(),
    );
    let (records, _) = resolve_xref(&pdf).unwrap();
    assert_eq!(lookup(&records, 7), Some(XrefEntry::Free));
    assert_eq!(
        load_object(&pdf, &records, 7),
        Err(extract_xml_rechnung::error::ParseError::DanglingReference)
    );
}

#[test]
fn file_without_startxref_has_no_trailer() {
    assert_eq!(resolve_xref(b"%PDF-1.4\n1 0 obj\n<< >>\nendobj\n"), Err(ErrorKind::MissingTrailer));
    assert_eq!(resolve_xref(b""), Err(ErrorKind::MissingTrailer));
    assert_eq!(resolve_xref(b"startxref"), Err(ErrorKind::MissingTrailer));
    assert_eq!(resolve_xref(b"startxref\nabc\n%%EOF"), Err(ErrorKind::MissingTrailer));
    assert_eq!(resolve_xref(b"startxref\n-4\n%%EOF"), Err(ErrorKind::MissingTrailer));
}

#[test]
fn startxref_that_leads_nowhere_has_no_trailer() {
    assert_eq!(
        resolve_xref(b"%PDF-1.4\n(not a table)\nstartxref\n9\n%%EOF"),
        Err(ErrorKind::MissingTrailer)
    );
    assert_eq!(resolve_xref(b"%PDF-1.4\nstartxref\n99999\n%%EOF"), Err(ErrorKind::MissingTrailer));
    assert_eq!(
        resolve_xref(b"%PDF-1.4\nxref\n0 0\ntrailer\n[1 2]\nstartxref\n9\n%%EOF"),
        Err(ErrorKind::MissingTrailer)
    );
}

#[test]
fn last_startxref_counts() {
    let mut pdf = b"%PDF-1.4\nstartxref\n0\n%%EOF\n".to_vec();
    append_revision(&mut pdf, &[(1, "<< >>")], "", None);
    assert!(resolve_xref(&pdf).is_ok());
}

#[test]
fn table_that_does_not_parse_is_corrupt() {
    assert_eq!(
        resolve_xref(b"%PDF-1.4\nxref\n0 1\n000000000X 65535 f \ntrailer\n<< >>\nstartxref\n9\n%%EOF"),
        Err(ErrorKind::CorruptXref)
    );
    assert_eq!(read_section(b"xref\n0 3\n0 0 f\ntrailer << >>", 0), Err(ErrorKind::CorruptXref));
}

#[test]
fn chain_of_revisions_that_never_ends_is_corrupt() {
    let pdf = b"%PDF-1.4\nxref\n0 0\ntrailer\n<< /Root 1 0 R /Prev 9 >>\nstartxref\n9\n%%EOF";
    assert_eq!(resolve_xref(pdf), Err(ErrorKind::CorruptXref));
    assert_eq!(MAX_REVISIONS, 256);
}

#[test]
fn prev_that_leads_nowhere_fails() {
    let pdf = b"%PDF-1.4\nxref\n0 0\ntrailer\n<< /Root 1 0 R /Prev 4000 >>\nstartxref\n9\n%%EOF";
    assert_eq!(resolve_xref(pdf), Err(ErrorKind::MissingTrailer));
}

#[test]
fn records_of_a_cross_reference_stream() {
    let dict = vec![
        (
            b"W".to_vec(),
            PdfObject::Array(vec![
                PdfObject::Integer(1),
                PdfObject::Integer(2),
                PdfObject::Integer(1),
            ]),
        ),
        (b"Size".to_vec(), PdfObject::Integer(4)),
    ];
    let data = [0, 0, 0, 255, 1, 1, 0, 0, 2, 0, 9, 3, 7, 0, 0, 0];
    assert_eq!(
        read_xref_stream(&dict, &data),
        Some(vec![
            free(0),
            in_use(1, 256),
            XrefRecord { number: 2, entry: XrefEntry::Compressed { stream: 9, index: 3 } },
            free(3)
        ])
    );
    assert_eq!(read_xref_stream(&dict, &data[..15]), None);
}

#[test]
fn index_of_a_cross_reference_stream() {
    let dict = vec![
        (
            b"W".to_vec(),
            PdfObject::Array(vec![
                PdfObject::Integer(0),
                PdfObject::Integer(3),
                PdfObject::Integer(0),
            ]),
        ),
        (
            b"Index".to_vec(),
            PdfObject::Array(vec![
                PdfObject::Integer(10),
                PdfObject::Integer(1),
                PdfObject::Integer(20),
                PdfObject::Integer(2),
            ]),
        ),
        (b"Size".to_vec(), PdfObject::Integer(30)),
    ];
    let data = [0, 0, 5, 1, 0, 0, 0, 1, 2];
    assert_eq!(
        read_xref_stream(&dict, &data),
        Some(vec![in_use(10, 5), in_use(20, 65536), in_use(21, 258)])
    );
}

#[test]
fn widths_must_be_three_small_integers() {
    let widths = |w: Vec<PdfObject>| {
        vec![(b"W".to_vec(), PdfObject::Array(w)), (b"Size".to_vec(), PdfObject::Integer(0))]
    };
    let int = PdfObject::Integer;
    assert_eq!(read_xref_stream(&widths(vec![int(1), int(1), int(1)]), &[]), Some(vec![]));
    assert_eq!(read_xref_stream(&widths(vec![int(1), int(1)]), &[]), None);
    assert_eq!(read_xref_stream(&widths(vec![int(0), int(0), int(0)]), &[]), None);
    assert_eq!(read_xref_stream(&widths(vec![int(1), int(9), int(1)]), &[]), None);
    assert_eq!(read_xref_stream(&widths(vec![int(1), int(-1), int(1)]), &[]), None);
    assert_eq!(read_xref_stream(&widths(vec![int(1), PdfObject::Null, int(1)]), &[]), None);
    assert_eq!(read_xref_stream(&vec![(b"Size".to_vec(), int(0))], &[]), None);
}

#[test]
fn wide_fields_are_read_in_full() {
    let dict = vec![
        (
            b"W".to_vec(),
            PdfObject::Array(vec![
                PdfObject::Integer(1),
                PdfObject::Integer(8),
                PdfObject::Integer(2),
            ]),
        ),
        (b"Size".to_vec(), PdfObject::Integer(1)),
    ];
    let data = [1, 0, 0, 0, 0, 0, 1, 0, 2, 0, 7];
    assert_eq!(
        read_xref_stream(&dict, &data),
        Some(vec![XrefRecord {
            number: 0,
            entry: XrefEntry::InUse { offset: 65538, generation: 7 }
        }])
    );
    let too_big = [2, 0, 0, 0, 1, 0, 0, 0, 0, 0, 0];
    assert_eq!(read_xref_stream(&dict, &too_big), None);
}

/// A file whose objects are listed by a compressed cross-reference stream
/// with a PNG predictor, as writers of PDF 1.5 and later produce it.
fn pdf_with_xref_stream() -> Vec<u8> {
    let mut pdf = b"%PDF-1.5\n".to_vec();
    let catalog_at = pdf.len();
    pdf.extend_from_slice(b"1 0 obj\n<< /Type /Catalog >>\nendobj\n");
    let seven_at = pdf.len();
    pdf.extend_from_slice(b"7 0 obj\n(in a stream table)\nendobj\n");
    let xref_at = pdf.len();
    let mut rows: Vec<u8> = Vec::new();
    let mut prev = [0u8; 4];
    for (kind, offset) in [(1u8, catalog_at), (1u8, seven_at), (1u8, xref_at)] {
        let row = [kind, (offset >> 8) as u8, offset as u8, 0];
        rows.push(2);
        for i in 0..4 {
            rows.push(row[i].wrapping_sub(prev[i]));
        }
        prev = row;
    }
    let stored = compress_to_vec_zlib(&rows, 6);
    pdf.extend_from_slice(
        format!(
            "9 0 obj\n<< /Type /XRef /Size 10 /Root 1 0 R /W [1 2 1] /Index [1 1 7 1 9 1] /Filter /FlateDecode /DecodeParms << /Predictor 12 /Columns 4 >> /Length {} >>\nstream\n",
            stored.len()
        )
        .as_bytes(),
    );
    pdf.extend_from_slice(&stored);
    pdf.extend_from_slice(format!("\nendstream\nendobj\nstartxref\n{}\n%%EOF\n", xref_at).as_bytes());
    pdf
}

#[test]
fn cross_reference_stream_is_resolved() {
    let pdf = pdf_with_xref_stream();
    let (records, trailer) = resolve_xref(&pdf).unwrap();
    assert_eq!(records.len(), 3);
    assert_eq!(records[0], in_use(1, 9));
    assert_eq!(
        dict_lookup(&trailer, b"Root"),
        Some(&PdfObject::Reference(ObjRef { number: 1, generation: 0 }))
    );
    assert_eq!(
        load_object(&pdf, &records, 7),
        Ok(PdfObject::String(b"in a stream table".to_vec()))
    );
}

#[test]
fn corrupt_cross_reference_stream_is_corrupt() {
    let pdf = pdf_with_xref_stream();
    let text = String::from_utf8_lossy(&pdf).into_owned();
    let broken = text.replace("/W [1 2 1]", "/W [1 2 2]");
    assert_eq!(resolve_xref(broken.as_bytes()), Err(ErrorKind::CorruptXref));
    let unfiltered = text.replace("/Filter /FlateDecode", "/Filter /LZWDecode");
    assert_eq!(resolve_xref(unfiltered.as_bytes()), Err(ErrorKind::CorruptXref));
}

#[test]
fn hybrid_file_reads_the_stream_of_its_trailer() {
    let mut pdf = b"%PDF-1.5\n".to_vec();
    pdf.extend_from_slice(b"1 0 obj\n<< >>\nendobj\n");
    let hidden_at = pdf.len();
    pdf.extend_from_slice(b"5 0 obj\n(hidden)\nendobj\n");
    let stream_at = pdf.len();
    let rows = [1u8, (hidden_at >> 8) as u8, hidden_at as u8];
    pdf.extend_from_slice(
        b"6 0 obj\n<< /Type /XRef /Size 7 /W [1 2 0] /Index [5 1] /Length 3 >>\nstream\n",
    );
    pdf.extend_from_slice(&rows);
    pdf.extend_from_slice(b"\nendstream\nendobj\n");
    let xref_at = pdf.len();
    pdf.extend_from_slice(
        format!(
            "xref\n1 1\n0000000009 00000 n \ntrailer\n<< /Size 7 /Root 1 0 R /XRefStm {} >>\nstartxref\n{}\n%%EOF\n",
            stream_at, xref_at
        )
        .as_bytes(),
    );
    let (records, _) = resolve_xref(&pdf).unwrap();
    assert_eq!(records, vec![in_use(1, 9), in_use(5, hidden_at)]);
    assert_eq!(load_object(&pdf, &records, 5), Ok(PdfObject::String(b"hidden".to_vec())));
}
