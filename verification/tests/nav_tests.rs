use csvlens::config::delimiter_from_arg;
use csvlens::config::parse_delimiter;
use csvlens::errors::ViewerError;
use csvlens::find::FoundRecord;
use csvlens::nav::TableState;
use csvlens::nav::get_offsets_to_make_visible;
use csvlens::nav::scroll_to_found_record;
use csvlens::nav::sync_cursor_to_view;
use csvlens::reader::DelimitedReader;
use csvlens::rows_view::RowsView;
use csvlens::source::SeekableSource;

fn sample(rows: usize) -> Vec<u8> {
    let mut content = b"a,b,c\n".to_vec();
    for i in 0..rows {
        content.extend_from_slice(format!("x{},y{},z{}\n", i, i, i).as_bytes());
    }
    content
}

fn view(rows: usize, height: usize) -> RowsView {
    let reader = DelimitedReader::new(sample(rows), None).unwrap();
    RowsView::new(reader, height).unwrap()
}

#[test]
fn offsets_are_none_when_record_is_visible() {
    let mut v = view(30, 10);
    v.set_rows_from(5).unwrap();
    let mut st = TableState::new();
    st.num_cols_rendered = 3;
    let rec = FoundRecord { row_index: 7, column_index: 1 };
    let (rows_offset, cols_offset) = get_offsets_to_make_visible(rec, &v, &st);
    assert_eq!(rows_offset, None);
    assert_eq!(cols_offset, None);
}

#[test]
fn offsets_move_to_record_outside_the_window() {
    let mut v = view(60, 10);
    v.set_rows_from(5).unwrap();
    let mut st = TableState::new();
    st.cols_offset = 2;
    st.num_cols_rendered = 2;
    let rec = FoundRecord { row_index: 40, column_index: 0 };
    let (rows_offset, cols_offset) = get_offsets_to_make_visible(rec, &v, &st);
    assert_eq!(rows_offset, Some(40));
    assert_eq!(cols_offset, Some(0));
}

#[test]
fn scroll_to_found_record_moves_view_and_state() {
    let mut v = view(60, 10);
    let mut st = TableState::new();
    st.num_cols_rendered = 1;
    let rec = FoundRecord { row_index: 33, column_index: 2 };
    scroll_to_found_record(rec, &mut v, &mut st).unwrap();
    assert_eq!(v.rows_from(), 33);
    assert_eq!(st.rows_offset, 33);
    assert_eq!(st.cols_offset, 2);
    assert!(v.in_view(33));
}

#[test]
fn scroll_to_visible_record_changes_nothing() {
    let mut v = view(60, 10);
    v.set_rows_from(30).unwrap();
    let mut st = TableState::new();
    st.num_cols_rendered = 3;
    let rec = FoundRecord { row_index: 31, column_index: 0 };
    scroll_to_found_record(rec, &mut v, &mut st).unwrap();
    assert_eq!(v.rows_from(), 30);
    assert_eq!(st.rows_offset, 0);
    assert_eq!(st.cols_offset, 0);
    assert_eq!(v.selected(), None);
}

#[test]
fn two_character_delimiter_is_rejected_before_any_input_is_read() {
    assert_eq!(parse_delimiter("ab").unwrap_err(), "Delimiter should be one ascii character");
    assert_eq!(delimiter_from_arg("ab").unwrap_err(), ViewerError::ConfigError);
}

#[test]
fn one_printable_ascii_character_delimiter_is_accepted() {
    assert_eq!(parse_delimiter(";").unwrap(), b';');
    assert_eq!(delimiter_from_arg(";").unwrap(), b';');
    // One printable byte is required: a tab is one ASCII character but not
    // printable, so both checks reject it.
    assert_eq!(parse_delimiter("\t").unwrap_err(), "Delimiter should be one ascii character");
    assert_eq!(delimiter_from_arg("\t").unwrap_err(), ViewerError::ConfigError);
    assert!(parse_delimiter("").is_err());
    assert!(parse_delimiter("\u{e9}").is_err());
}

#[test]
fn seekable_input_is_used_in_place() {
    let src = SeekableSource::open("data.csv".to_string(), None).unwrap();
    assert!(!src.is_materialized());
    assert_eq!(src.effective_path(), "data.csv");
}

#[test]
fn piped_input_is_materialized_to_a_temporary_copy() {
    let src = SeekableSource::open("-".to_string(), Some(b"a,b\n1,2\n".to_vec())).unwrap();
    assert!(src.is_materialized());
    assert_ne!(src.effective_path(), "-");
    assert!(!src.effective_path().is_empty());
}

#[test]
fn cursor_sync_clears_offscreen_cursor_and_tracks_hint() {
    let mut content = b"h\n".to_vec();
    for i in 0..40 {
        if i == 5 || i == 30 {
            content.extend_from_slice(b"mark\n");
        } else {
            content.extend_from_slice(b"none\n");
        }
    }
    let mut finder = csvlens::find::Finder::new(content.clone(), None, b"mark".to_vec()).unwrap();
    finder.scan_to_end();
    let reader = DelimitedReader::new(content, None).unwrap();
    let mut v = RowsView::new(reader, 10).unwrap();
    assert_eq!(finder.next().unwrap().row_index(), 5);
    // The match at row 5 is inside the window [0, 10): the cursor stays.
    sync_cursor_to_view(&mut finder, &v);
    assert_eq!(finder.cursor_row_index(), Some(5));
    // Scrolling away clears the cursor and re-anchors the hint at the window.
    v.set_rows_from(20).unwrap();
    sync_cursor_to_view(&mut finder, &v);
    assert_eq!(finder.cursor_row_index(), None);
    assert_eq!(finder.next().unwrap().row_index(), 30);
}
