use csvlens::find::Finder;
use csvlens::reader::DelimitedReader;
use csvlens::rows_view::Control;
use csvlens::rows_view::RowsView;

fn sample(rows: usize) -> Vec<u8> {
    let mut content = b"a,b,c\n".to_vec();
    for i in 0..rows {
        content.extend_from_slice(format!("x{},y{},z{}\n", i, i, i).as_bytes());
    }
    content
}

fn view(rows: usize, height: usize) -> RowsView {
    let reader = DelimitedReader::new(sample(rows), None).unwrap();
    RowsView::new(reader, height).unwrap()
}

#[test]
fn window_holds_at_most_height_rows_in_ascending_order() {
    let mut v = view(30, 7);
    v.set_rows_from(4).unwrap();
    let rows = v.rows();
    assert_eq!(rows.len(), 7);
    for (k, row) in rows.iter().enumerate() {
        assert_eq!(row.index, 4 + k);
    }
}

#[test]
fn set_rows_from_twice_gives_same_window() {
    let mut v = view(30, 5);
    v.set_rows_from(12).unwrap();
    let first: Vec<usize> = v.rows().iter().map(|r| r.index).collect();
    v.set_rows_from(12).unwrap();
    let second: Vec<usize> = v.rows().iter().map(|r| r.index).collect();
    assert_eq!(first, second);
    assert_eq!(v.rows_from(), 12);
}

#[test]
fn window_past_end_returns_partial_window() {
    // 100 data rows, window of 10, scrolled to 95: exactly rows 95..=99.
    let mut v = view(100, 10);
    v.set_rows_from(95).unwrap();
    let rows = v.rows();
    assert_eq!(rows.len(), 5);
    assert_eq!(rows[0].index, 95);
    assert_eq!(rows[4].index, 99);
}

#[test]
fn scroll_clamps_once_total_is_known() {
    let mut v = view(20, 5);
    let _ = v.rows();
    let _ = v.set_rows_from(1000);
    assert_eq!(v.get_total_line_numbers(), None);
    // Read to the end once so that the total becomes exact, then clamp.
    v.set_rows_from(19).unwrap();
    let _ = v.rows();
    assert_eq!(v.get_total_line_numbers(), Some(20));
    v.set_rows_from(1000).unwrap();
    assert_eq!(v.rows_from(), 15);
    assert_eq!(v.rows().len(), 5);
}

#[test]
fn set_num_rows_changes_window_height() {
    let mut v = view(30, 5);
    v.set_num_rows(3).unwrap();
    assert_eq!(v.rows().len(), 3);
    v.set_num_rows(12).unwrap();
    assert_eq!(v.rows().len(), 12);
}

#[test]
fn in_view_matches_window_bounds() {
    let mut v = view(30, 5);
    v.set_rows_from(10).unwrap();
    assert!(!v.in_view(9));
    assert!(v.in_view(10));
    assert!(v.in_view(14));
    assert!(!v.in_view(15));
}

#[test]
fn headers_are_exposed() {
    let v = view(3, 5);
    assert_eq!(v.headers().clone(), vec![b"a".to_vec(), b"b".to_vec(), b"c".to_vec()]);
}

#[test]
fn filter_mode_translates_match_indices() {
    // Matches at raw rows 2, 5 and 9; windowed from match index 1 the first
    // visible row is the one at raw index 5.
    let mut content = b"a,b\n".to_vec();
    for i in 0..12 {
        if i == 2 || i == 5 || i == 9 {
            content.extend_from_slice(format!("x{},hit\n", i).as_bytes());
        } else {
            content.extend_from_slice(format!("x{},pass\n", i).as_bytes());
        }
    }
    let mut finder = Finder::new(content.clone(), None, b"hit".to_vec()).unwrap();
    finder.scan_to_end();
    assert_eq!(finder.count(), 3);

    let reader = DelimitedReader::new(content, None).unwrap();
    let mut v = RowsView::new(reader, 10).unwrap();
    v.set_filter(&finder).unwrap();
    assert!(v.is_filter());
    v.set_rows_from(1).unwrap();
    assert_eq!(v.rows_from(), 1);
    let rows = v.rows();
    assert_eq!(rows.len(), 2);
    assert_eq!(rows[0].index, 5);
    assert_eq!(rows[1].index, 9);

    v.reset_filter().unwrap();
    assert!(!v.is_filter());
    v.set_rows_from(0).unwrap();
    assert_eq!(v.rows().len(), 10);
}

#[test]
fn filter_offset_saturates_at_last_match_index() {
    let mut content = b"a\n".to_vec();
    for i in 0..6 {
        content.extend_from_slice(format!("row{}\n", i).as_bytes());
    }
    let mut finder = Finder::new(content.clone(), None, b"row".to_vec()).unwrap();
    finder.scan_to_end();
    assert_eq!(finder.count(), 6);
    let reader = DelimitedReader::new(content, None).unwrap();
    let mut v = RowsView::new(reader, 4).unwrap();
    v.set_filter(&finder).unwrap();
    // An offset past the match set saturates at the last match index, so the
    // window never scrolls past every match.
    v.set_rows_from(100).unwrap();
    assert_eq!(v.rows_from(), 5);
    let rows = v.rows();
    assert_eq!(rows.len(), 1);
    assert_eq!(rows[0].index, 5);
    // An offset that addresses an existing match survives whatever the
    // window height.
    v.set_rows_from(2).unwrap();
    assert_eq!(v.rows_from(), 2);
    let rows = v.rows();
    assert_eq!(rows.len(), 4);
    assert_eq!(rows[0].index, 2);
}

#[test]
fn handle_control_scroll_to_moves_window() {
    let mut v = view(30, 5);
    v.handle_control(&Control::ScrollTo(8)).unwrap();
    assert_eq!(v.rows_from(), 8);
    v.handle_control(&Control::Quit).unwrap();
    assert_eq!(v.rows_from(), 8);
    v.handle_control(&Control::BufferReset).unwrap();
    assert_eq!(v.rows_from(), 8);
}

#[test]
fn rows_records_fetch_latency() {
    let mut v = view(5, 3);
    assert!(v.elapsed().is_none());
    let _ = v.rows();
    assert!(v.elapsed().is_some());
}

#[test]
fn selected_row_follows_set_selected() {
    let mut v = view(5, 3);
    assert_eq!(v.selected(), None);
    v.set_selected(Some(4));
    assert_eq!(v.selected(), Some(4));
    v.set_selected(None);
    assert_eq!(v.selected(), None);
}

#[test]
fn approx_total_is_exposed_while_scanning() {
    let mut v = view(40, 4);
    let _ = v.rows();
    assert!(v.get_total_line_numbers().is_none());
    assert!(v.get_total_line_numbers_approx().is_some());
}

#[test]
fn empty_input_gives_an_empty_window() {
    let reader = DelimitedReader::new(Vec::new(), None).unwrap();
    let mut v = RowsView::new(reader, 5).unwrap();
    assert_eq!(v.rows().len(), 0);
    assert_eq!(v.get_total_line_numbers(), Some(0));
    assert_eq!(v.headers().len(), 0);
}
