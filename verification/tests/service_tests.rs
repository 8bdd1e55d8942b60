use sudoku_tracker::csv_util::CsvRow;
use sudoku_tracker::models::{
    FieldValue, ImportBody, Meta, MergedPuzzle, ProgressBody, ProgressRow, Puzzle, StateQuery,
};
use sudoku_tracker::service::{
    apply_progress_body, candidate_list, check_import_url, check_puzzle_number, download_candidates,
    download_failure_message, export_disposition, filter_catalog, import_entry_of, import_request,
    import_row_in_range, import_rows, is_html_start, looks_like_html, missing_columns, next_puzzle,
    parse_port, plan_import, progress_time_in_range, query_without_gid, resolve_filters, sync_interval_ms,
    try_apply_progress_body, try_plan_import, ApiError, MAX_IMPORT_BYTES,
};
use sudoku_tracker::url_parts::UrlInfo;

fn body() -> ProgressBody {
    ProgressBody {
        solved: None,
        skipped: None,
        active: None,
        clear_status: None,
        video_used: None,
        clear_time: None,
        time: None,
        time_seconds: None,
    }
}

fn stored(solved: bool, skipped: bool, video: Option<&str>, time: Option<i64>) -> Option<ProgressRow> {
    Some(ProgressRow { solved, skipped, video_used: video.map(|v| v.to_string()), time_seconds: time })
}

fn bad_request(r: Result<ProgressRow, ApiError>) -> String {
    match r {
        Err(ApiError::BadRequest(m)) => m,
        other => panic!("expected a bad request, got {other:?}"),
    }
}

fn merged(number: i32, constraints: &str, solved: bool, skipped: bool) -> MergedPuzzle {
    MergedPuzzle {
        base: Puzzle {
            number,
            title: String::new(),
            setter: String::new(),
            constraints: constraints.to_string(),
            puzzle_link: String::new(),
            video_link: String::new(),
        },
        solved,
        skipped,
        video_used: None,
        video_used_label: "Not used".to_string(),
        time_seconds: None,
        time_formatted: String::new(),
    }
}

fn row(pairs: &[(&str, &str)]) -> CsvRow {
    let mut r = CsvRow::new();
    for (k, v) in pairs {
        r.insert(k.to_string(), v.to_string());
    }
    r
}

#[test]
fn api_error_status_and_message() {
    assert_eq!(ApiError::BadRequest("a".into()).status_code(), 400);
    assert_eq!(ApiError::BadGateway("b".into()).status_code(), 502);
    assert_eq!(ApiError::GatewayTimeout("c".into()).status_code(), 504);
    assert_eq!(ApiError::Internal("d".into()).status_code(), 500);
    assert_eq!(ApiError::BadRequest("a".into()).message(), "a");
    assert_eq!(ApiError::BadGateway("b".into()).message(), "b");
    assert_eq!(ApiError::GatewayTimeout("c".into()).message(), "c");
    assert_eq!(ApiError::Internal("d".into()).message(), "d");
}

#[test]
fn puzzle_number_must_be_positive() {
    assert!(check_puzzle_number(1).is_ok());
    match check_puzzle_number(0) {
        Err(ApiError::BadRequest(m)) => assert_eq!(m, "Invalid puzzle number"),
        other => panic!("{other:?}"),
    }
    assert!(check_puzzle_number(-5).is_err());
}

#[test]
fn progress_new_puzzle_solved() {
    let mut b = body();
    b.solved = Some(true);
    let r = apply_progress_body(None, &b).unwrap();
    assert!(r.solved && !r.skipped);
    assert_eq!(r.video_used, None);
    assert_eq!(r.time_seconds, None);
}

#[test]
fn progress_solved_clears_skipped_and_back() {
    let mut b = body();
    b.solved = Some(true);
    let r = apply_progress_body(stored(false, true, None, None), &b).unwrap();
    assert!(r.solved && !r.skipped);
    let mut b = body();
    b.skipped = Some(true);
    let r = apply_progress_body(stored(true, false, None, None), &b).unwrap();
    assert!(!r.solved && r.skipped);
}

#[test]
fn progress_solved_wins_over_skipped() {
    let mut b = body();
    b.solved = Some(true);
    b.skipped = Some(true);
    let r = apply_progress_body(None, &b).unwrap();
    assert!(r.solved && !r.skipped);
}

#[test]
fn progress_unset_flags() {
    let mut b = body();
    b.solved = Some(false);
    let r = apply_progress_body(stored(true, false, None, Some(5)), &b).unwrap();
    assert!(!r.solved && !r.skipped);
    assert_eq!(r.time_seconds, Some(5));
    let mut b = body();
    b.skipped = Some(false);
    let r = apply_progress_body(stored(true, false, None, None), &b).unwrap();
    assert!(r.solved && !r.skipped);
}

#[test]
fn progress_active_and_clear_status_reset() {
    let mut b = body();
    b.active = Some(true);
    b.solved = Some(true);
    let r = apply_progress_body(stored(true, false, Some("full"), Some(9)), &b).unwrap();
    assert!(!r.solved && !r.skipped);
    assert_eq!(r.video_used.as_deref(), Some("full"));
    assert_eq!(r.time_seconds, Some(9));
    let mut b = body();
    b.clear_status = Some(true);
    let r = apply_progress_body(stored(false, true, None, None), &b).unwrap();
    assert!(!r.solved && !r.skipped);
}

#[test]
fn progress_empty_update_keeps_everything() {
    let r = apply_progress_body(stored(true, false, Some("partial"), Some(77)), &body()).unwrap();
    assert!(r.solved && !r.skipped);
    assert_eq!(r.video_used.as_deref(), Some("partial"));
    assert_eq!(r.time_seconds, Some(77));
}

#[test]
fn progress_video_values() {
    let mut b = body();
    b.video_used = Some(FieldValue::Text(" FULL ".into()));
    assert_eq!(apply_progress_body(None, &b).unwrap().video_used.as_deref(), Some("full"));
    b.video_used = Some(FieldValue::Null);
    assert_eq!(apply_progress_body(stored(false, false, Some("full"), None), &b).unwrap().video_used, None);
    b.video_used = Some(FieldValue::Text(String::new()));
    assert_eq!(apply_progress_body(stored(false, false, Some("full"), None), &b).unwrap().video_used, None);
}

#[test]
fn progress_video_errors() {
    let mut b = body();
    b.video_used = Some(FieldValue::Text("sometimes".into()));
    assert_eq!(bad_request(apply_progress_body(None, &b)), "videoUsed must be none, partial, or full");
    b.video_used = Some(FieldValue::Int(1));
    assert_eq!(bad_request(apply_progress_body(None, &b)), "videoUsed must be none, partial, or full");
    b.video_used = Some(FieldValue::Other);
    assert_eq!(bad_request(apply_progress_body(None, &b)), "videoUsed must be none, partial, or full");
}

#[test]
fn progress_time_seconds_values() {
    let mut b = body();
    b.time_seconds = Some(FieldValue::Int(42));
    assert_eq!(apply_progress_body(None, &b).unwrap().time_seconds, Some(42));
    b.time_seconds = Some(FieldValue::Text("43".into()));
    assert_eq!(apply_progress_body(None, &b).unwrap().time_seconds, Some(43));
    b.time_seconds = Some(FieldValue::Text(String::new()));
    assert_eq!(apply_progress_body(stored(false, false, None, Some(8)), &b).unwrap().time_seconds, Some(8));
    b.time_seconds = Some(FieldValue::Null);
    assert_eq!(apply_progress_body(stored(false, false, None, Some(8)), &b).unwrap().time_seconds, Some(8));
}

#[test]
fn progress_time_seconds_errors() {
    let mut b = body();
    for v in [FieldValue::Int(-1), FieldValue::Text("-3".into()), FieldValue::Text("abc".into()), FieldValue::Other] {
        b.time_seconds = Some(v);
        assert_eq!(bad_request(apply_progress_body(None, &b)), "Invalid timeSeconds");
    }
}

#[test]
fn progress_time_text() {
    let mut b = body();
    b.time = Some("4:50".into());
    assert_eq!(apply_progress_body(None, &b).unwrap().time_seconds, Some(290));
    b.time = Some("   ".into());
    assert_eq!(apply_progress_body(stored(false, false, None, Some(3)), &b).unwrap().time_seconds, Some(3));
    b.time = Some("soon".into());
    assert_eq!(
        bad_request(apply_progress_body(None, &b)),
        "Use a time like 4:50, 04:50, 0:04:50, or 1:09:05 (minutes:seconds or hours:minutes:seconds)"
    );
}

#[test]
fn progress_time_seconds_before_time_and_clear_first() {
    let mut b = body();
    b.time_seconds = Some(FieldValue::Int(10));
    b.time = Some("4:50".into());
    assert_eq!(apply_progress_body(None, &b).unwrap().time_seconds, Some(10));
    b.time_seconds = Some(FieldValue::Null);
    assert_eq!(apply_progress_body(None, &b).unwrap().time_seconds, None);
    let mut b = body();
    b.clear_time = Some(true);
    b.time_seconds = Some(FieldValue::Int(-1));
    assert_eq!(apply_progress_body(stored(false, false, None, Some(3)), &b).unwrap().time_seconds, None);
}

#[test]
fn progress_video_error_comes_before_time_error() {
    let mut b = body();
    b.video_used = Some(FieldValue::Text("x".into()));
    b.time_seconds = Some(FieldValue::Int(-1));
    assert_eq!(bad_request(apply_progress_body(None, &b)), "videoUsed must be none, partial, or full");
}

#[test]
fn progress_time_in_range_values() {
    let mut b = body();
    assert!(progress_time_in_range(&None, &b));
    b.time = Some("1:00".into());
    assert!(progress_time_in_range(&None, &b));
    b.time = Some("9223372036854775807:00".into());
    assert!(!progress_time_in_range(&None, &b));
    b.clear_time = Some(true);
    assert!(progress_time_in_range(&None, &b));
}

#[test]
fn resolve_filters_prefers_query() {
    let q = StateQuery { include_text: Some("killer".into()), exclude_text: None };
    let (i, e, store) = resolve_filters("a".into(), "b".into(), &q);
    assert_eq!((i.as_str(), e.as_str(), store), ("killer", "b", true));
    let (i, e, store) = resolve_filters("a".into(), "b".into(), &StateQuery::default());
    assert_eq!((i.as_str(), e.as_str(), store), ("a", "b", false));
    let q = StateQuery { include_text: None, exclude_text: Some(String::new()) };
    let (i, e, store) = resolve_filters("a".into(), "b".into(), &q);
    assert_eq!((i.as_str(), e.as_str(), store), ("a", "", true));
}

#[test]
fn filter_catalog_and_next() {
    let ms = vec![
        merged(1, "Killer", true, false),
        merged(2, "Thermo", false, false),
        merged(3, "Killer, Arrow", false, true),
        merged(4, "Killer", false, false),
    ];
    let (filtered, catalog) = filter_catalog(&ms, "killer", "arrow");
    assert_eq!(filtered.iter().map(|p| p.base.number).collect::<Vec<_>>(), vec![1, 4]);
    assert_eq!(catalog.len(), 4);
    assert_eq!(catalog.iter().map(|c| c.matches_filter).collect::<Vec<_>>(), vec![true, false, false, true]);
    assert_eq!(catalog[2].merged.base.number, 3);
    assert_eq!(next_puzzle(&filtered).map(|p| p.base.number), Some(4));
    assert_eq!(next_puzzle(&ms).map(|p| p.base.number), Some(2));
    assert!(next_puzzle(&ms[..1]).is_none());
    assert!(next_puzzle(&[]).is_none());
}

#[test]
fn import_entry_reads_number_solved_time() {
    let r = row(&[("Puzzle Number", " 12 "), ("Solved", "yes"), ("Time", "4:50")]);
    assert!(import_row_in_range(&r));
    let e = import_entry_of(&r).unwrap();
    assert_eq!((e.number, e.solved, e.time_seconds), (12, true, Some(290)));
    let r = row(&[("Puzzle Number", "3"), ("Time", "later")]);
    let e = import_entry_of(&r).unwrap();
    assert_eq!((e.number, e.solved, e.time_seconds), (3, false, None));
    assert!(import_entry_of(&row(&[("Puzzle Number", "x"), ("Solved", "TRUE")])).is_none());
    assert!(import_entry_of(&row(&[("Solved", "TRUE")])).is_none());
}

#[test]
fn import_row_in_range_flags_overflow() {
    let r = row(&[("Puzzle Number", "1"), ("Time", "9223372036854775807:00")]);
    assert!(!import_row_in_range(&r));
    let r = row(&[("Puzzle Number", "x"), ("Time", "9223372036854775807:00")]);
    assert!(import_row_in_range(&r));
}

#[test]
fn plan_import_skips_rows_without_number() {
    let rows = vec![
        row(&[("Puzzle Number", "1"), ("Solved", "TRUE")]),
        row(&[("Puzzle Number", ""), ("Solved", "TRUE")]),
        row(&[("Puzzle Number", "2"), ("Time (Include Hour, like 0:04:50)", "0:01:00")]),
    ];
    let plan = plan_import(&rows);
    assert_eq!(plan.len(), 2);
    assert_eq!((plan[0].number, plan[0].solved, plan[0].time_seconds), (1, true, None));
    assert_eq!((plan[1].number, plan[1].solved, plan[1].time_seconds), (2, false, Some(60)));
}

#[test]
fn import_url_checks() {
    let ok = UrlInfo { scheme: "https".into(), host: Some("x".into()), query: vec![], fragment: None };
    assert!(check_import_url("https://x", &Some(ok)).is_ok());
    let http = UrlInfo { scheme: "http".into(), host: Some("x".into()), query: vec![], fragment: None };
    match check_import_url("https://x", &Some(http)) {
        Err(ApiError::BadRequest(m)) => assert_eq!(m, "Only https URLs are allowed"),
        other => panic!("{other:?}"),
    }
    match check_import_url("https://x", &None) {
        Err(ApiError::BadRequest(m)) => assert_eq!(m, "Invalid URL"),
        other => panic!("{other:?}"),
    }
    match check_import_url("http://x", &None) {
        Err(ApiError::BadRequest(m)) => assert_eq!(m, "URL must start with https://"),
        other => panic!("{other:?}"),
    }
}

#[test]
fn import_request_resolves_link() {
    let b = ImportBody { url: " https://docs.google.com/spreadsheets/d/ID/edit#gid=4 ".into(), replace_all: Some(true) };
    let (fetch, replace_all) = import_request(&b).unwrap();
    assert_eq!(fetch, "https://docs.google.com/spreadsheets/d/ID/export?format=csv&gid=4");
    assert!(replace_all);
    let b = ImportBody { url: "https://example.com/a.csv".into(), replace_all: None };
    let (fetch, replace_all) = import_request(&b).unwrap();
    assert_eq!(fetch, "https://example.com/a.csv");
    assert!(!replace_all);
}

#[test]
fn import_request_refusals() {
    for (url, msg) in [
        ("http://example.com/a.csv", "URL must start with https://"),
        ("ftp://x", "URL must start with https://"),
        ("https://", "Invalid URL"),
        ("https://exa mple.com/", "Invalid URL"),
    ] {
        match import_request(&ImportBody { url: url.into(), replace_all: None }) {
            Err(ApiError::BadRequest(m)) => assert_eq!(m, msg, "{url}"),
            other => panic!("{url}: {other:?}"),
        }
    }
}

#[test]
fn import_rows_checks() {
    match import_rows("") {
        Err(ApiError::BadRequest(m)) => assert_eq!(m, "CSV is empty or too large"),
        other => panic!("{other:?}"),
    }
    let big = "a".repeat(MAX_IMPORT_BYTES + 1);
    match import_rows(&big) {
        Err(ApiError::BadRequest(m)) => assert_eq!(m, "CSV is empty or too large"),
        other => panic!("{other:?}"),
    }
    match import_rows("Puzzle Number,Solved\n") {
        Err(ApiError::BadRequest(m)) => assert_eq!(m, "No data rows found in CSV"),
        other => panic!("{other:?}"),
    }
    let rows = import_rows("Puzzle Number,Solved\n1,TRUE\n2,\n").unwrap();
    assert_eq!(rows.len(), 2);
    assert_eq!(rows[1].get("Solved").unwrap(), "");
}

#[test]
fn download_failure_messages() {
    assert_eq!(download_failure_message(""), "Could not download CSV");
    assert_eq!(download_failure_message("500 Internal Server Error"), "Could not download CSV (500 Internal Server Error)");
    let m = download_failure_message("404 Not Found");
    assert!(m.starts_with("Google returned Not Found (404 Not Found). Open the sheet with **Share"));
    assert!(m.ends_with("so it includes `gid=`."));
}

#[test]
fn query_without_gid_values() {
    let pairs = vec![("format".to_string(), "csv".to_string()), ("gid".to_string(), "5".to_string())];
    assert_eq!(query_without_gid(&pairs), Some(vec![("format".to_string(), "csv".to_string())]));
    assert_eq!(query_without_gid(&vec![("gid".to_string(), "1".to_string())]), Some(vec![]));
    assert_eq!(query_without_gid(&vec![("a".to_string(), "b".to_string())]), None);
}

#[test]
fn candidate_list_drops_repeats() {
    let c = candidate_list("https://a", Some("https://a".into()), Some("ID".into()));
    assert_eq!(
        c,
        vec![
            "https://a".to_string(),
            "https://docs.google.com/spreadsheets/d/ID/export?format=csv".to_string(),
            "https://docs.google.com/spreadsheets/d/ID/gviz/tq?tqx=out:csv&gid=0".to_string(),
        ]
    );
    assert_eq!(candidate_list("https://a", None, None), vec!["https://a".to_string()]);
}

#[test]
fn download_candidates_for_export_link_with_gid() {
    let c = download_candidates("https://docs.google.com/spreadsheets/d/ID/export?format=csv&gid=5");
    assert_eq!(
        c,
        vec![
            "https://docs.google.com/spreadsheets/d/ID/export?format=csv&gid=5".to_string(),
            "https://docs.google.com/spreadsheets/d/ID/export?format=csv".to_string(),
            "https://docs.google.com/spreadsheets/d/ID/gviz/tq?tqx=out:csv&gid=0".to_string(),
        ]
    );
}

#[test]
fn download_candidates_for_gid_only_query() {
    let c = download_candidates("https://docs.google.com/spreadsheets/d/ID/export?gid=5");
    assert_eq!(
        c,
        vec![
            "https://docs.google.com/spreadsheets/d/ID/export?gid=5".to_string(),
            "https://docs.google.com/spreadsheets/d/ID/export".to_string(),
            "https://docs.google.com/spreadsheets/d/ID/export?format=csv".to_string(),
            "https://docs.google.com/spreadsheets/d/ID/gviz/tq?tqx=out:csv&gid=0".to_string(),
        ]
    );
}

#[test]
fn download_candidates_for_other_links() {
    assert_eq!(download_candidates("https://example.com/a.csv"), vec!["https://example.com/a.csv".to_string()]);
    let c = download_candidates("https://example.com/a.csv?gid=1&x=y");
    assert_eq!(c, vec!["https://example.com/a.csv?gid=1&x=y".to_string(), "https://example.com/a.csv?x=y".to_string()]);
}

#[test]
fn html_detection() {
    assert!(looks_like_html("  \n<!DOCTYPE html><html>"));
    assert!(looks_like_html("<HTML><body>"));
    assert!(!looks_like_html("Puzzle Number,Title\n1,A"));
    assert!(!looks_like_html(""));
    assert!(is_html_start("<html lang=en>"));
    assert!(!is_html_start("<HTML>"));
}

#[test]
fn sync_interval_values() {
    assert_eq!(sync_interval_ms(None, None), 86400000);
    assert_eq!(sync_interval_ms(Some("1000"), None), 60000);
    assert_eq!(sync_interval_ms(Some("abc"), Some("120000")), 86400000);
    assert_eq!(sync_interval_ms(None, Some("120000")), 120000);
    assert_eq!(sync_interval_ms(Some("90000"), Some("120000")), 90000);
    assert_eq!(sync_interval_ms(Some("60000"), None), 60000);
}

#[test]
fn port_values() {
    assert_eq!(parse_port("8080"), 8080);
    assert_eq!(parse_port("x"), 3840);
    assert_eq!(parse_port("70000"), 3840);
    assert_eq!(parse_port(""), 3840);
}

#[test]
fn meta_sync_bookkeeping() {
    let mut m = Meta::default();
    m.record_sync_failure("boom".into());
    assert_eq!(m.last_sync_error.as_deref(), Some("boom"));
    assert_eq!(m.last_sync_at, None);
    m.record_sync_success("2024-01-01T00:00:00+00:00".into());
    assert_eq!(m.last_sync_error, None);
    assert_eq!(m.last_sync_at.as_deref(), Some("2024-01-01T00:00:00+00:00"));
    m.record_sync_failure("again".into());
    assert_eq!(m.last_sync_at.as_deref(), Some("2024-01-01T00:00:00+00:00"));
    assert_eq!(m.last_sync_error.as_deref(), Some("again"));
}

#[test]
fn missing_columns_values() {
    let cols = vec!["puzzle_number".to_string(), "skipped".to_string()];
    assert_eq!(missing_columns(&cols), (false, true));
    assert_eq!(missing_columns(&vec![]), (true, true));
    assert_eq!(missing_columns(&vec!["video_used".to_string(), "skipped".to_string()]), (false, false));
}

#[test]
fn export_disposition_value() {
    assert_eq!(
        export_disposition("20240102-030405"),
        "attachment; filename=\"sudoku-adventure-export-20240102-030405.csv\""
    );
}

#[test]
fn try_apply_progress_body_checks_the_time_bound() {
    let mut b = body();
    b.time = Some("4:50".into());
    match try_apply_progress_body(None, &b) {
        Some(Ok(r)) => assert_eq!(r.time_seconds, Some(290)),
        other => panic!("{other:?}"),
    }
    b.time = Some("soon".into());
    assert!(matches!(try_apply_progress_body(None, &b), Some(Err(ApiError::BadRequest(_)))));
    b.time = Some("9223372036854775807:00".into());
    assert!(try_apply_progress_body(None, &b).is_none());
    b.clear_time = Some(true);
    match try_apply_progress_body(stored(false, false, None, Some(3)), &b) {
        Some(Ok(r)) => assert_eq!(r.time_seconds, None),
        other => panic!("{other:?}"),
    }
}

#[test]
fn try_plan_import_checks_every_row() {
    let rows = vec![row(&[("Puzzle Number", "1"), ("Time", "1:00")]), row(&[("Puzzle Number", "2"), ("Solved", "1")])];
    let plan = try_plan_import(&rows).unwrap();
    assert_eq!(plan.len(), 2);
    assert_eq!((plan[0].number, plan[0].time_seconds), (1, Some(60)));
    assert!(plan[1].solved);
    let rows = vec![row(&[("Puzzle Number", "1")]), row(&[("Puzzle Number", "2"), ("Time", "9223372036854775807:00")])];
    assert!(try_plan_import(&rows).is_none());
    assert!(try_plan_import(&vec![]).unwrap().is_empty());
}
