use csvlens::errors::ViewerError;
use csvlens::find::Finder;
use csvlens::find::FoundRecord;

fn grid(rows: usize, hit_row: usize, hit_col: usize) -> Vec<u8> {
    let mut content = b"a,b,c\n".to_vec();
    for i in 0..rows {
        for c in 0..3 {
            if c > 0 {
                content.push(b',');
            }
            if i == hit_row && c == hit_col {
                content.extend_from_slice(b"foo");
            } else {
                content.extend_from_slice(format!("v{}x{}", i, c).as_bytes());
            }
        }
        content.push(b'\n');
    }
    content
}

#[test]
fn single_match_is_found_and_next_wraps_to_it() {
    // One match at row 42, column 1: the count reaches one, next() lands on
    // the record, and a second next() wraps back to the same record.
    let mut finder = Finder::new(grid(100, 42, 1), None, b"foo".to_vec()).unwrap();
    finder.scan_to_end();
    assert_eq!(finder.count(), 1);
    let rec = finder.next().unwrap();
    assert_eq!(rec, FoundRecord { row_index: 42, column_index: 1 });
    assert_eq!(rec.row_index(), 42);
    assert_eq!(rec.first_column(), 1);
    let again = finder.next().unwrap();
    assert_eq!(again, rec);
}

#[test]
fn full_cycle_visits_matches_ascending_exactly_once() {
    let mut content = b"h\n".to_vec();
    for i in 0..20 {
        if i % 3 == 0 {
            content.extend_from_slice(format!("needle{}\n", i).as_bytes());
        } else {
            content.extend_from_slice(format!("plain{}\n", i).as_bytes());
        }
    }
    let mut finder = Finder::new(content, None, b"needle".to_vec()).unwrap();
    finder.scan_to_end();
    let n = finder.count();
    assert_eq!(n, 7);
    let mut seen: Vec<usize> = Vec::new();
    for _ in 0..n {
        seen.push(finder.next().unwrap().row_index());
    }
    assert_eq!(seen, vec![0, 3, 6, 9, 12, 15, 18]);
    // The step after the last match wraps back to the first.
    assert_eq!(finder.next().unwrap().row_index(), 0);
}

#[test]
fn count_is_monotone_while_scanning() {
    let mut finder = Finder::new(grid(50, 10, 0), None, b"foo".to_vec()).unwrap();
    let mut last = finder.count();
    while finder.scan_step() {
        let now = finder.count();
        assert!(now >= last);
        last = now;
    }
    assert_eq!(finder.count(), 1);
}

#[test]
fn row_hint_biases_first_navigation() {
    let mut content = b"h\n".to_vec();
    for i in 0..30 {
        if i == 4 || i == 14 || i == 24 {
            content.extend_from_slice(b"mark\n");
        } else {
            content.extend_from_slice(b"none\n");
        }
    }
    let mut finder = Finder::new(content, None, b"mark".to_vec()).unwrap();
    finder.scan_to_end();
    finder.set_row_hint(10);
    assert_eq!(finder.next().unwrap().row_index(), 14);
    finder.reset_cursor();
    finder.set_row_hint(10);
    assert_eq!(finder.prev().unwrap().row_index(), 4);
    // A hint past every match wraps next() to the first match.
    finder.reset_cursor();
    finder.set_row_hint(29);
    assert_eq!(finder.next().unwrap().row_index(), 4);
    // A hint before every match wraps prev() to the last match.
    finder.reset_cursor();
    finder.set_row_hint(0);
    assert_eq!(finder.prev().unwrap().row_index(), 24);
}

#[test]
fn prev_steps_backwards_and_wraps() {
    let mut content = b"h\n".to_vec();
    for i in 0..10 {
        content.extend_from_slice(format!("m{}\n", i).as_bytes());
    }
    let mut finder = Finder::new(content, None, b"m".to_vec()).unwrap();
    finder.scan_to_end();
    assert_eq!(finder.count(), 10);
    finder.set_row_hint(5);
    assert_eq!(finder.next().unwrap().row_index(), 5);
    assert_eq!(finder.prev().unwrap().row_index(), 4);
    assert_eq!(finder.prev().unwrap().row_index(), 3);
    finder.reset_cursor();
    finder.set_row_hint(0);
    assert_eq!(finder.next().unwrap().row_index(), 0);
    assert_eq!(finder.prev().unwrap().row_index(), 9);
}

#[test]
fn cursor_row_index_and_reset() {
    let mut finder = Finder::new(grid(20, 7, 2), None, b"foo".to_vec()).unwrap();
    finder.scan_to_end();
    assert_eq!(finder.cursor_row_index(), None);
    let _ = finder.next();
    assert_eq!(finder.cursor_row_index(), Some(7));
    finder.reset_cursor();
    assert_eq!(finder.cursor_row_index(), None);
}

#[test]
fn no_matches_means_no_navigation() {
    let mut finder = Finder::new(grid(10, 3, 0), None, b"absent".to_vec()).unwrap();
    finder.scan_to_end();
    assert_eq!(finder.count(), 0);
    assert!(finder.next().is_none());
    assert!(finder.prev().is_none());
    assert_eq!(finder.cursor_row_index(), None);
}

#[test]
fn matches_report_first_matching_column() {
    let content = b"a,b,c\nfoo,foo,x\ny,foo,z\n".to_vec();
    let mut finder = Finder::new(content, None, b"foo".to_vec()).unwrap();
    finder.scan_to_end();
    let rows = finder.match_rows();
    assert_eq!(rows, vec![0, 1]);
    assert_eq!(finder.next().unwrap(), FoundRecord { row_index: 0, column_index: 0 });
    assert_eq!(finder.next().unwrap(), FoundRecord { row_index: 1, column_index: 1 });
}

#[test]
fn invalid_delimiter_is_rejected_before_scanning() {
    let err = match Finder::new(grid(5, 1, 1), Some(0x00), b"foo".to_vec()) {
        Ok(_) => panic!("a zero byte is not a printable delimiter"),
        Err(e) => e,
    };
    assert_eq!(err, ViewerError::ConfigError);
}

#[test]
fn elapsed_is_reported_once_done() {
    let mut finder = Finder::new(grid(5, 1, 1), None, b"foo".to_vec()).unwrap();
    assert!(finder.elapsed().is_none());
    finder.scan_to_end();
    assert!(finder.elapsed().is_some());
}

#[test]
fn substring_match_is_case_sensitive() {
    let content = b"a\nFoo\nfoo\n".to_vec();
    let mut finder = Finder::new(content, None, b"foo".to_vec()).unwrap();
    finder.scan_to_end();
    assert_eq!(finder.match_rows(), vec![1]);
}

#[test]
fn empty_pattern_matches_every_row_at_first_column() {
    let content = b"a,b\n1,2\n3,4\n".to_vec();
    let mut finder = Finder::new(content, None, Vec::new()).unwrap();
    finder.scan_to_end();
    assert_eq!(finder.count(), 2);
    assert_eq!(finder.next().unwrap(), FoundRecord { row_index: 0, column_index: 0 });
}

#[test]
fn empty_input_finishes_with_no_matches() {
    let mut finder = Finder::new(Vec::new(), None, b"x".to_vec()).unwrap();
    assert!(!finder.scan_step());
    assert_eq!(finder.count(), 0);
    assert!(finder.elapsed().is_some());
}
