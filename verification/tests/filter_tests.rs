use extract_xml_rechnung::error::ParseError;
use extract_xml_rechnung::filter::{
    a85_decode, apply_filter, decode_stream, finish_flate, hex_decode, png_unfilter,
};
use extract_xml_rechnung::object::PdfObject;
use miniz_oxide::deflate::compress_to_vec_zlib;

type Dict = Vec<(Vec<u8>, PdfObject)>;

fn name(s: &str) -> PdfObject {
    PdfObject::Name(s.as_bytes().to_vec())
}

fn entry(key: &str, value: PdfObject) -> (Vec<u8>, PdfObject) {
    (key.as_bytes().to_vec(), value)
}

fn hex_encode(data: &[u8]) -> Vec<u8> {
    let digits = b"0123456789ABCDEF";
    let mut out = Vec::new();
    for b in data {
        out.push(digits[(b >> 4) as usize]);
        out.push(digits[(b & 15) as usize]);
    }
    out.push(b'>');
    out
}

fn sample(len: usize) -> Vec<u8> {
    (0..len).map(|i| ((i * 31 + i / 7) % 251) as u8).collect()
}

#[test]
fn stream_without_filter_is_returned_as_stored() {
    let dict: Dict = vec![entry("Length", PdfObject::Integer(3))];
    assert_eq!(decode_stream(&dict, b"abc"), Ok(b"abc".to_vec()));
    let dict: Dict = vec![entry("Filter", PdfObject::Null)];
    assert_eq!(decode_stream(&dict, b"abc"), Ok(b"abc".to_vec()));
    let dict: Dict = vec![entry("Filter", PdfObject::Array(vec![]))];
    assert_eq!(decode_stream(&dict, b""), Ok(vec![]));
}

#[test]
fn hex_filter_decodes_digits() {
    assert_eq!(hex_decode(b"48656c6C6F>"), Some(b"Hello".to_vec()));
    assert_eq!(hex_decode(b"48 65\n6c\t6C 6F"), Some(b"Hello".to_vec()));
    assert_eq!(hex_decode(b"4>8"), Some(vec![0x40]));
    assert_eq!(hex_decode(b""), Some(vec![]));
    assert_eq!(hex_decode(b">"), Some(vec![]));
    assert_eq!(hex_decode(b"ABC"), Some(vec![0xAB, 0xC0]));
    assert_eq!(hex_decode(b"4x"), None);
}

#[test]
fn hex_filter_round_trip() {
    for len in [0usize, 1, 2, 255, 70000] {
        let data = sample(len);
        assert_eq!(hex_decode(&hex_encode(&data)), Some(data));
    }
}

#[test]
fn flate_filter_round_trip_of_all_sizes() {
    for len in [0usize, 1, 100, 65536, 70001, 300000] {
        let data = sample(len);
        let stored = compress_to_vec_zlib(&data, 6);
        let dict: Dict = vec![entry("Filter", name("FlateDecode"))];
        assert_eq!(decode_stream(&dict, &stored), Ok(data));
    }
}

#[test]
fn flate_filter_inflates_known_bytes() {
    let stored: [u8; 20] = [
        120, 156, 243, 72, 205, 201, 201, 215, 81, 168, 202, 201, 76, 82, 4, 0, 27, 101, 4, 19,
    ];
    assert_eq!(apply_filter(b"FlateDecode", None, &stored), Ok(b"Hello, zlib!".to_vec()));
    assert_eq!(apply_filter(b"Fl", None, &stored), Ok(b"Hello, zlib!".to_vec()));
    assert_ne!(apply_filter(b"Fl", None, &stored), Ok(stored.to_vec()));
}

#[test]
fn corrupt_flate_data_is_a_decode_error() {
    assert_eq!(
        apply_filter(b"FlateDecode", None, b"this is not zlib data"),
        Err(ParseError::FilterDecodeError)
    );
    let mut stored = compress_to_vec_zlib(&sample(1000), 6);
    stored.truncate(stored.len() / 2);
    assert_eq!(apply_filter(b"FlateDecode", None, &stored), Err(ParseError::FilterDecodeError));
    assert_eq!(apply_filter(b"FlateDecode", None, b""), Err(ParseError::FilterDecodeError));
}

#[test]
fn failed_inflation_is_a_decode_error() {
    assert_eq!(finish_flate(None, None), Err(ParseError::FilterDecodeError));
    assert_eq!(finish_flate(Some(vec![1, 2, 3]), None), Ok(vec![1, 2, 3]));
}

#[test]
fn unknown_filters_are_unsupported() {
    assert_eq!(apply_filter(b"LZWDecode", None, b"x"), Err(ParseError::UnsupportedFilter));
    assert_eq!(apply_filter(b"DCTDecode", None, b"x"), Err(ParseError::UnsupportedFilter));
    assert_eq!(apply_filter(b"flatedecode", None, b"x"), Err(ParseError::UnsupportedFilter));
    let dict: Dict = vec![entry("Filter", PdfObject::Integer(3))];
    assert_eq!(decode_stream(&dict, b"x"), Err(ParseError::UnsupportedFilter));
    let dict: Dict = vec![entry("Filter", PdfObject::Array(vec![PdfObject::Integer(3)]))];
    assert_eq!(decode_stream(&dict, b"x"), Err(ParseError::UnsupportedFilter));
}

#[test]
fn filters_apply_in_declared_order() {
    let data = sample(5000);
    let stored = hex_encode(&compress_to_vec_zlib(&data, 6));
    let dict: Dict = vec![entry(
        "Filter",
        PdfObject::Array(vec![name("ASCIIHexDecode"), name("FlateDecode")]),
    )];
    assert_eq!(decode_stream(&dict, &stored), Ok(data.clone()));
    let wrong: Dict = vec![entry(
        "Filter",
        PdfObject::Array(vec![name("FlateDecode"), name("ASCIIHexDecode")]),
    )];
    assert_eq!(decode_stream(&wrong, &stored), Err(ParseError::FilterDecodeError));
    let short: Dict = vec![entry("Filter", PdfObject::Array(vec![name("AHx"), name("Fl")]))];
    assert_eq!(decode_stream(&short, &stored), Ok(data));
}

#[test]
fn chain_stops_at_unsupported_filter() {
    let dict: Dict = vec![entry(
        "Filter",
        PdfObject::Array(vec![name("ASCIIHexDecode"), name("JBIG2Decode")]),
    )];
    assert_eq!(decode_stream(&dict, b"00>"), Err(ParseError::UnsupportedFilter));
}

#[test]
fn png_rows_without_prediction() {
    assert_eq!(png_unfilter(&[0, 1, 2, 3, 0, 4, 5, 6], 3, 1), Some(vec![1, 2, 3, 4, 5, 6]));
    assert_eq!(png_unfilter(&[], 3, 1), Some(vec![]));
}

#[test]
fn png_sub_adds_the_byte_to_the_left() {
    assert_eq!(png_unfilter(&[1, 10, 1, 1, 250], 4, 1), Some(vec![10, 11, 12, 6]));
    assert_eq!(png_unfilter(&[1, 10, 20, 1, 2], 4, 2), Some(vec![10, 20, 11, 22]));
}

#[test]
fn png_up_adds_the_byte_above() {
    assert_eq!(
        png_unfilter(&[2, 1, 2, 3, 2, 1, 1, 255], 3, 1),
        Some(vec![1, 2, 3, 2, 3, 2])
    );
}

#[test]
fn png_average_adds_the_mean_of_left_and_above() {
    assert_eq!(
        png_unfilter(&[0, 10, 20, 3, 1, 1], 2, 1),
        Some(vec![10, 20, 6, 14])
    );
}

#[test]
fn png_paeth_picks_the_nearest_neighbour() {
    assert_eq!(
        png_unfilter(&[0, 10, 20, 4, 1, 1], 2, 1),
        Some(vec![10, 20, 11, 21])
    );
    assert_eq!(
        png_unfilter(&[0, 50, 10, 4, 0, 5], 2, 1),
        Some(vec![50, 10, 50, 15])
    );
}

#[test]
fn png_rejects_unknown_type_and_short_row() {
    assert_eq!(png_unfilter(&[5, 1, 2, 3], 3, 1), None);
    assert_eq!(png_unfilter(&[0, 1, 2], 3, 1), None);
    assert_eq!(png_unfilter(&[0, 1, 2, 3, 0], 3, 1), None);
}

#[test]
fn flate_with_png_predictor() {
    let rows: Vec<u8> = vec![2, 1, 0, 16, 0, 2, 0, 0, 4, 0, 2, 0, 0, 5, 1];
    let stored = compress_to_vec_zlib(&rows, 6);
    let parms: Dict = vec![
        entry("Predictor", PdfObject::Integer(12)),
        entry("Columns", PdfObject::Integer(4)),
    ];
    let dict: Dict = vec![
        entry("Filter", name("FlateDecode")),
        entry("DecodeParms", PdfObject::Dictionary(parms)),
    ];
    assert_eq!(
        decode_stream(&dict, &stored),
        Ok(vec![1, 0, 16, 0, 1, 0, 20, 0, 1, 0, 25, 1])
    );
}

#[test]
fn parameters_in_an_array_belong_to_their_filter() {
    let rows: Vec<u8> = vec![0, 7, 8, 1, 1, 1];
    let stored = hex_encode(&compress_to_vec_zlib(&rows, 6));
    let parms: Dict = vec![
        entry("Predictor", PdfObject::Integer(15)),
        entry("Columns", PdfObject::Integer(2)),
    ];
    let dict: Dict = vec![
        entry("Filter", PdfObject::Array(vec![name("AHx"), name("Fl")])),
        entry(
            "DecodeParms",
            PdfObject::Array(vec![PdfObject::Null, PdfObject::Dictionary(parms)]),
        ),
    ];
    assert_eq!(decode_stream(&dict, &stored), Ok(vec![7, 8, 1, 2]));
}

#[test]
fn predictor_parameters_out_of_range_are_unsupported() {
    let stored = compress_to_vec_zlib(&[0, 1], 6);
    for (key, value) in [("Predictor", 2), ("Predictor", 9), ("Predictor", 16)] {
        let parms: Dict = vec![entry(key, PdfObject::Integer(value))];
        assert_eq!(
            apply_filter(b"FlateDecode", Some(&parms), &stored),
            Err(ParseError::UnsupportedFilter)
        );
    }
    for (key, value) in [("Colors", 0), ("BitsPerComponent", 3), ("Columns", 0), ("Columns", 1 << 21)] {
        let parms: Dict = vec![
            entry("Predictor", PdfObject::Integer(12)),
            entry(key, PdfObject::Integer(value)),
        ];
        assert_eq!(
            apply_filter(b"FlateDecode", Some(&parms), &stored),
            Err(ParseError::UnsupportedFilter)
        );
    }
}

#[test]
fn predictor_layout_counts_bits() {
    let parms: Dict = vec![
        entry("Predictor", PdfObject::Integer(10)),
        entry("Colors", PdfObject::Integer(3)),
        entry("BitsPerComponent", PdfObject::Integer(4)),
        entry("Columns", PdfObject::Integer(3)),
    ];
    // 3 colours of 4 bits in 3 columns: 36 bits, 5 bytes a row, 2 bytes a pixel.
    let rows = vec![1, 1, 2, 3, 4, 5];
    assert_eq!(
        finish_flate(Some(rows), Some(&parms)),
        Ok(vec![1, 2, 4, 6, 9])
    );
    assert_eq!(
        finish_flate(Some(vec![0, 1, 2, 3, 4]), Some(&parms)),
        Err(ParseError::FilterDecodeError)
    );
}

#[test]
fn base85_filter_decodes_groups() {
    assert_eq!(a85_decode(b"9jqo^~>"), Some(b"Man ".to_vec()));
    assert_eq!(
        a85_decode(b"9jqo^BlbD-BleB1DJ+*+F(f,q~>"),
        Some(b"Man is distinguished".to_vec())
    );
    assert_eq!(a85_decode(b"BOu!rD]j7BEbo7"), Some(b"hello world".to_vec()));
    assert_eq!(a85_decode(b"9jq o^ Bl\nbD-"), Some(b"Man is d".to_vec()));
    assert_eq!(a85_decode(b"s8W-!"), Some(vec![255, 255, 255, 255]));
    assert_eq!(a85_decode(b""), Some(vec![]));
    assert_eq!(a85_decode(b"~>"), Some(vec![]));
    assert_eq!(a85_decode(b"9jqo^~>ignored"), Some(b"Man ".to_vec()));
}

#[test]
fn base85_filter_fills_the_last_group() {
    assert_eq!(a85_decode(b"9`~>"), Some(b"M".to_vec()));
    assert_eq!(a85_decode(b"9jn~>"), Some(b"Ma".to_vec()));
    assert_eq!(a85_decode(b"9jqo~>"), Some(b"Man".to_vec()));
}

#[test]
fn base85_filter_expands_the_zero_group() {
    assert_eq!(a85_decode(b"z"), Some(vec![0, 0, 0, 0]));
    assert_eq!(a85_decode(b"z!<~>"), Some(vec![0, 0, 0, 0, 1]));
    assert_eq!(a85_decode(b"zz"), Some(vec![0; 8]));
    assert_eq!(a85_decode(b"!!!!!"), Some(vec![0, 0, 0, 0]));
}

#[test]
fn base85_filter_rejects_what_it_cannot_read() {
    assert_eq!(a85_decode(b"9~>"), None);
    assert_eq!(a85_decode(b"9jzqo^"), None);
    assert_eq!(a85_decode(b"9jq{o"), None);
    assert_eq!(a85_decode(b"s8W-\""), None);
    assert_eq!(a85_decode(b"uuuuu"), None);
    assert_eq!(a85_decode(b"uu"), None);
    assert_eq!(apply_filter(b"ASCII85Decode", None, b"9"), Err(ParseError::FilterDecodeError));
}

#[test]
fn base85_filter_by_name() {
    assert_eq!(apply_filter(b"ASCII85Decode", None, b"9jqo^~>"), Ok(b"Man ".to_vec()));
    assert_eq!(apply_filter(b"A85", None, b"9jqo^~>"), Ok(b"Man ".to_vec()));
    let data = sample(3000);
    let stored = compress_to_vec_zlib(&data, 6);
    let mut encoded = Vec::new();
    for chunk in stored.chunks(4) {
        let mut v: u64 = 0;
        for i in 0..4 {
            v = v * 256 + *chunk.get(i).unwrap_or(&0) as u64;
        }
        let mut digits = [0u8; 5];
        for i in (0..5).rev() {
            digits[i] = (v % 85) as u8 + 33;
            v /= 85;
        }
        encoded.extend_from_slice(&digits[..chunk.len() + 1]);
    }
    encoded.extend_from_slice(b"~>");
    let dict: Dict = vec![entry(
        "Filter",
        PdfObject::Array(vec![name("ASCII85Decode"), name("FlateDecode")]),
    )];
    assert_eq!(decode_stream(&dict, &encoded), Ok(data));
}
