//! Table, parsing, error and session facade tests.

use plotoxide::app_state::PlotOxide;
use plotoxide::error::{u64_to_string, PlotError};
use plotoxide::parse::{parse_decimal, parse_value};
use plotoxide::table::ColumnarTable;
use plotoxide::uistate::{recompute_indices, TableState};
use plotoxide::SCALE;

fn strings(cells: &[&str]) -> Vec<String> {
    cells.iter().map(|s| s.to_string()).collect()
}

fn small_table() -> ColumnarTable {
    ColumnarTable::new(
        strings(&["a", "b"]),
        vec![strings(&["1", "3"]), strings(&["2", "x"])],
        vec![false, false],
    )
    .unwrap()
}

#[test]
fn test_error_messages() {
    let err = PlotError::ColumnNotFound { column: "Temperature".to_string() };
    assert_eq!(err.user_message(), "Column 'Temperature' not found");
    assert_eq!(err.title(), "Column Not Found");

    let err = PlotError::InsufficientData {
        operation: "Moving average".to_string(),
        required: 10,
        actual: 5,
    };
    assert_eq!(
        err.user_message(),
        "Moving average requires 10 points, but only 5 available"
    );
}

#[test]
fn test_error_conversion() {
    let io_err = std::io::Error::new(std::io::ErrorKind::NotFound, "file not found");
    let plot_err: PlotError = io_err.into();
    assert!(matches!(plot_err, PlotError::FileIo(_)));
}

#[test]
fn decimal_rendering() {
    assert_eq!(u64_to_string(0), "0");
    assert_eq!(u64_to_string(907), "907");
    assert_eq!(u64_to_string(1048576), "1048576");
}

#[test]
fn invalid_index_message() {
    let err = PlotError::InvalidColumnIndex { index: 7, max: 3 };
    assert_eq!(err.user_message(), "Column index 7 out of range (max: 3)");
}

#[test]
fn parse_plain_decimals() {
    assert_eq!(parse_decimal(b"42"), Some(42 * SCALE));
    assert_eq!(parse_decimal(b"-3"), Some(-3 * SCALE));
    assert_eq!(parse_decimal(b"+3"), Some(3 * SCALE));
    // 2.5 is exactly representable in binary fixed point
    assert_eq!(parse_decimal(b"2.5"), Some(2 * SCALE + SCALE / 2));
    assert_eq!(parse_decimal(b".5"), Some(SCALE / 2));
    assert_eq!(parse_decimal(b"5."), Some(5 * SCALE));
    assert_eq!(parse_decimal(b""), None);
    assert_eq!(parse_decimal(b"."), None);
    assert_eq!(parse_decimal(b"1.2.3"), None);
    assert_eq!(parse_decimal(b"abc"), None);
}

#[test]
fn parse_value_numbers_and_timestamps() {
    let (v, ts) = parse_value(" 2.5 ");
    assert_eq!(v, Some(2 * SCALE + SCALE / 2));
    assert!(!ts);

    // a number in the Unix-seconds range for 2000..2038 is a timestamp
    let (v, ts) = parse_value("1704067200");
    assert_eq!(v, Some(1704067200 * SCALE));
    assert!(ts);

    // the same instant in milliseconds converts to seconds
    let (v, ts) = parse_value("1704067200000");
    assert_eq!(v, Some(1704067200 * SCALE));
    assert!(ts);

    assert_eq!(parse_value("not a number"), (None, false));
}

#[test]
fn parse_value_dates_via_chrono() {
    let (v, ts) = parse_value("2024-01-15T14:30:00");
    assert!(ts);
    let expected_ms = chrono::NaiveDateTime::parse_from_str(
        "2024-01-15T14:30:00",
        "%Y-%m-%dT%H:%M:%S",
    )
    .unwrap()
    .and_utc()
    .timestamp_millis();
    assert_eq!(v, Some(expected_ms / 1000 * SCALE));

    let (v2, ts2) = parse_value("2024-01-15 14:30:00");
    assert_eq!(v2, v);
    assert!(ts2);
}

#[test]
fn table_shapes_and_caching() {
    let mut t = small_table();
    assert_eq!(t.row_count(), 2);
    assert_eq!(t.column_count(), 2);
    assert!(!t.is_datetime_column(0));
    assert!(!t.is_datetime_column(9));

    assert!(t.ensure_numeric(0).is_ok());
    let col = t.column_as_numeric(0).unwrap();
    assert_eq!(col, vec![Some(SCALE), Some(3 * SCALE)]);

    assert!(t.ensure_numeric(1).is_ok());
    let col1 = t.column_as_numeric(1).unwrap();
    // the unparseable cell projects to None, never an error
    assert_eq!(col1, vec![Some(2 * SCALE), None]);

    assert!(t.ensure_numeric(5).is_err());
    let texts = t.column_as_string(1).unwrap();
    assert_eq!(texts, strings(&["2", "x"]));
}

#[test]
fn table_rejects_ragged_columns() {
    let r = ColumnarTable::new(
        strings(&["a", "b"]),
        vec![strings(&["1", "3"]), strings(&["2"])],
        vec![false, false],
    );
    assert!(r.is_err());
}

#[test]
fn test_datasource_row_major_conversion() {
    let t = ColumnarTable::new(
        strings(&["a", "b"]),
        vec![strings(&["1", "3"]), strings(&["2", "4"])],
        vec![false, false],
    )
    .unwrap();
    let mut app = PlotOxide::new();
    app.load_csv(t, "data.csv".to_string()).unwrap();

    let rows = app.raw_data();
    assert_eq!(rows.len(), 2);
    assert_eq!(rows[0], strings(&["1", "2"]));
    assert_eq!(rows[1], strings(&["3", "4"]));
}

#[test]
fn session_load_defaults_and_recents() {
    let mut app = PlotOxide::new();
    assert!(app.headers().is_empty());
    assert!(!app.is_column_timestamp(0));

    app.load_csv(small_table(), "one.csv".to_string()).unwrap();
    assert_eq!(app.headers(), strings(&["a", "b"]));
    assert_eq!(app.state.view.x_index, 0);
    assert_eq!(app.state.view.y_indices, vec![1]);
    assert!(app.state.view.reset_bounds);
    assert_eq!(app.state.recent_files, strings(&["one.csv"]));

    app.load_csv(small_table(), "two.csv".to_string()).unwrap();
    app.load_csv(small_table(), "one.csv".to_string()).unwrap();
    // most recent first, no duplicates
    assert_eq!(app.state.recent_files, strings(&["one.csv", "two.csv"]));

    app.reset_view();
    assert!(app.state.view.reset_bounds);
}

#[test]
fn session_state_defaults() {
    let app = PlotOxide::new();
    assert!(app.state.view.dark_mode);
    assert!(!app.state.spc.has_active_features());
    assert!(!app.state.filters.has_active_filters());
    assert_eq!(app.state.ui.data_version, 0);
}

#[test]
fn recompute_indices_filters_and_sorts() {
    let t = ColumnarTable::new(
        strings(&["name", "value"]),
        vec![
            strings(&["Apple", "banana", "apricot"]),
            strings(&["9", "2", "x"]),
        ],
        vec![false, false],
    )
    .unwrap();
    let mut ts = TableState::new();
    let cols = vec![0usize, 1usize];

    // case-insensitive substring filter over displayed columns
    recompute_indices(&t, "AP", None, true, 1, &mut ts, &cols);
    assert_eq!(ts.filtered_indices, vec![0, 2]);
    assert_eq!(ts.display_indices, vec![0, 2]);
    assert!(ts.is_cache_valid("AP", None, true, 1));
    assert!(!ts.is_cache_valid("AP", None, true, 2));

    // sorting by the numeric key column, missing keys at the end
    let mut t2 = t;
    t2.ensure_numeric(1).unwrap();
    let keys = t2.column_as_numeric(1).unwrap();
    recompute_indices(&t2, "", Some((1, &keys)), true, 1, &mut ts, &cols);
    assert_eq!(ts.filtered_indices, vec![0, 1, 2]);
    assert_eq!(ts.display_indices, vec![1, 0, 2]);
    assert!(ts.is_cache_valid("", Some(1), true, 1));
}

#[test]
fn table_state_selection() {
    let mut ts = TableState::new();
    ts.toggle_selection(4);
    assert!(ts.is_selected(4));
    ts.toggle_selection(4);
    assert!(!ts.is_selected(4));
    ts.select_range(7, 5);
    assert!(ts.is_selected(5) && ts.is_selected(6) && ts.is_selected(7));
    ts.clear_selection();
    assert!(!ts.is_selected(6));
}

#[test]
fn millisecond_heuristic_has_upper_bound() {
    // within the 2000..2038 millisecond range: converted to seconds
    let (v, ts) = parse_value("1704067200000");
    assert_eq!(v, Some(1704067200 * SCALE));
    assert!(ts);
    // above the range: a plain (large) number, not a timestamp
    let (v2, ts2) = parse_value("3000000000000");
    assert_eq!(v2, Some(3_000_000_000_000 * SCALE));
    assert!(!ts2);
}

#[test]
fn compact_datetime_form() {
    let (v, ts) = parse_value("20240115 143000");
    assert!(ts);
    let (expect, ts2) = parse_value("2024-01-15 14:30:00");
    assert!(ts2);
    assert_eq!(v, expect);
    // a malformed compact cell parses as nothing
    assert_eq!(parse_value("20240115143000x"), (None, false));
}

#[test]
fn recent_files_cap_at_five() {
    let mut app = PlotOxide::new();
    for name in ["a", "b", "c", "d", "e", "f", "g"] {
        app.load_csv(small_table(), format!("{name}.csv")).unwrap();
    }
    assert_eq!(
        app.state.recent_files,
        strings(&["g.csv", "f.csv", "e.csv", "d.csv", "c.csv"])
    );
}

#[test]
fn load_warns_on_poorly_parsing_columns() {
    let mut app = PlotOxide::new();
    // more than five percent of the second column fails to parse
    let bad = ColumnarTable::new(
        strings(&["a", "b"]),
        vec![strings(&["1", "2"]), strings(&["x", "y"])],
        vec![false, false],
    )
    .unwrap();
    app.load_csv(bad, "bad.csv".to_string()).unwrap();
    assert!(app.state.ui.error_message.is_some());

    // a clean table raises nothing and leaves the message alone
    let mut app2 = PlotOxide::new();
    app2.load_csv(small_table(), "ok.csv".to_string()).unwrap();
    // small_table's second column has one unparseable cell out of two:
    // over the threshold, so it warns too; a fully numeric table does not
    let clean = ColumnarTable::new(
        strings(&["a", "b"]),
        vec![strings(&["1", "3"]), strings(&["2", "4"])],
        vec![false, false],
    )
    .unwrap();
    let mut app3 = PlotOxide::new();
    app3.load_csv(clean, "clean.csv".to_string()).unwrap();
    assert!(app3.state.ui.error_message.is_none());
}

#[test]
fn csv_export_round_trip_text() {
    let t = ColumnarTable::new(
        strings(&["a", "b"]),
        vec![strings(&["1", "3"]), strings(&["2", "4"])],
        vec![false, false],
    )
    .unwrap();
    let mut app = PlotOxide::new();
    assert!(app.export_csv_text().is_none());
    app.load_csv(t, "data.csv".to_string()).unwrap();
    assert_eq!(app.export_csv_text().unwrap(), "a,b\n1,2\n3,4\n");
}
