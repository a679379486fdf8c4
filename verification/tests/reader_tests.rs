use csvlens::errors::ViewerError;
use csvlens::reader::DelimitedReader;

fn sample(rows: usize) -> Vec<u8> {
    let mut content = b"a,b,c\n".to_vec();
    for i in 0..rows {
        content.extend_from_slice(format!("x{},y{},z{}\n", i, i, i).as_bytes());
    }
    content
}

#[test]
fn headers_are_parsed_once() {
    let reader = DelimitedReader::new(sample(3), None).unwrap();
    let headers = reader.headers();
    assert_eq!(headers.len(), 3);
    assert_eq!(headers[0], b"a".to_vec());
    assert_eq!(headers[1], b"b".to_vec());
    assert_eq!(headers[2], b"c".to_vec());
}

#[test]
fn headers_with_custom_delimiter() {
    let mut reader = DelimitedReader::new(b"k;v\n1;2\n".to_vec(), Some(b';')).unwrap();
    assert_eq!(reader.headers().clone(), vec![b"k".to_vec(), b"v".to_vec()]);
    let row = reader.read_row_at(0).unwrap();
    assert_eq!(row.fields, vec![b"1".to_vec(), b"2".to_vec()]);
}

#[test]
fn invalid_delimiter_is_config_error() {
    let err = match DelimitedReader::new(sample(1), Some(b'\n')) {
        Ok(_) => panic!("a newline is not a printable delimiter"),
        Err(e) => e,
    };
    assert_eq!(err, ViewerError::ConfigError);
    let err = match DelimitedReader::new(sample(1), Some(0x01)) {
        Ok(_) => panic!("a control byte is not a printable delimiter"),
        Err(e) => e,
    };
    assert_eq!(err, ViewerError::ConfigError);
}

#[test]
fn read_rows_returns_requested_window() {
    let mut reader = DelimitedReader::new(sample(10), None).unwrap();
    let rows = reader.read_rows(2, 3);
    assert_eq!(rows.len(), 3);
    assert_eq!(rows[0].index, 2);
    assert_eq!(rows[0].fields, vec![b"x2".to_vec(), b"y2".to_vec(), b"z2".to_vec()]);
    assert_eq!(rows[1].index, 3);
    assert_eq!(rows[2].index, 4);
}

#[test]
fn read_rows_stops_early_at_end_of_file() {
    let mut reader = DelimitedReader::new(sample(5), None).unwrap();
    let rows = reader.read_rows(3, 10);
    assert_eq!(rows.len(), 2);
    assert_eq!(rows[0].index, 3);
    assert_eq!(rows[1].index, 4);
    let rows = reader.read_rows(5, 10);
    assert_eq!(rows.len(), 0);
}

#[test]
fn read_row_at_is_random_access() {
    let mut reader = DelimitedReader::new(sample(8), None).unwrap();
    let row = reader.read_row_at(6).unwrap();
    assert_eq!(row.index, 6);
    assert_eq!(row.fields[2], b"z6".to_vec());
    assert!(reader.read_row_at(8).is_none());
    let row = reader.read_row_at(0).unwrap();
    assert_eq!(row.fields[0], b"x0".to_vec());
}

#[test]
fn row_offsets_give_byte_spans() {
    let mut reader = DelimitedReader::new(b"h\nfirst\nsecond\n".to_vec(), None).unwrap();
    let r0 = reader.read_row_at(0).unwrap();
    let r1 = reader.read_row_at(1).unwrap();
    assert_eq!(r0.offset, 2);
    assert_eq!(r1.offset, 8);
}

#[test]
fn no_trailing_newline_still_counts_last_row() {
    let mut reader = DelimitedReader::new(b"a,b\n1,2\n3,4".to_vec(), None).unwrap();
    let rows = reader.read_rows(0, 10);
    assert_eq!(rows.len(), 2);
    assert_eq!(rows[1].fields, vec![b"3".to_vec(), b"4".to_vec()]);
}

#[test]
fn empty_fields_are_kept() {
    let mut reader = DelimitedReader::new(b"a,b,c\n,,\n".to_vec(), None).unwrap();
    let row = reader.read_row_at(0).unwrap();
    assert_eq!(row.fields, vec![b"".to_vec(), b"".to_vec(), b"".to_vec()]);
}

#[test]
fn empty_input_has_no_rows() {
    let mut reader = DelimitedReader::new(Vec::new(), None).unwrap();
    assert_eq!(reader.headers().len(), 0);
    assert_eq!(reader.exact_total_rows(), Some(0));
    assert!(reader.read_row_at(0).is_none());
}

#[test]
fn header_only_input_has_zero_rows() {
    let mut reader = DelimitedReader::new(b"a,b,c\n".to_vec(), None).unwrap();
    assert_eq!(reader.exact_total_rows(), Some(0));
    assert!(reader.read_row_at(0).is_none());
}

#[test]
fn exact_total_appears_after_full_scan_and_never_changes() {
    let mut reader = DelimitedReader::new(sample(20), None).unwrap();
    assert_eq!(reader.exact_total_rows(), None);
    let _ = reader.read_rows(0, 5);
    assert_eq!(reader.exact_total_rows(), None);
    let _ = reader.read_rows(0, 100);
    assert_eq!(reader.exact_total_rows(), Some(20));
    let _ = reader.read_rows(3, 4);
    let _ = reader.read_row_at(19);
    assert_eq!(reader.exact_total_rows(), Some(20));
}

#[test]
fn approximate_total_tracks_progress_and_lands_on_exact() {
    // Header and every row take six bytes. After rows 0..3 are indexed the
    // index covers four lines (24 bytes) of which three are data rows, so the
    // estimate is 3 * 60 / 24 = 7; at the end it equals the exact count.
    let mut content = b"aa,bb\n".to_vec();
    for i in 0..9 {
        content.extend_from_slice(format!("r{},s{}\n", i, i).as_bytes());
    }
    let mut reader = DelimitedReader::new(content, None).unwrap();
    assert_eq!(reader.approximate_total_rows(), None);
    let _ = reader.read_rows(0, 3);
    assert_eq!(reader.approximate_total_rows(), Some(7));
    let _ = reader.read_rows(0, 100);
    assert_eq!(reader.exact_total_rows(), Some(9));
    assert_eq!(reader.approximate_total_rows(), Some(9));
}
