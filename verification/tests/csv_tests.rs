use sudoku_tracker::csv_util::{
    export_header_strings, export_record_of, get_or_empty, normalize_row, parse_csv_records, progress_export_csv,
    puzzles_from_csv, record_to_row, records_from_table, sort_by_number, CsvRow,
};
use sudoku_tracker::models::{MergedPuzzle, Puzzle};
use sudoku_tracker::service::{import_rows, plan_import};

fn puzzle(number: i32, title: &str) -> Puzzle {
    Puzzle {
        number,
        title: title.to_string(),
        setter: "S".to_string(),
        constraints: "Killer, Thermo".to_string(),
        puzzle_link: "l".to_string(),
        video_link: "v".to_string(),
    }
}

fn merged(number: i32, solved: bool, skipped: bool, video: Option<&str>, time: Option<i64>) -> MergedPuzzle {
    MergedPuzzle {
        base: puzzle(number, "A"),
        solved,
        skipped,
        video_used: video.map(|v| v.to_string()),
        video_used_label: String::new(),
        time_seconds: time,
        time_formatted: String::new(),
    }
}

fn strings(v: &[&str]) -> Vec<String> {
    v.iter().map(|s| s.to_string()).collect()
}

#[test]
fn csv_row_insert_get_and_order() {
    let mut r = CsvRow::new();
    assert_eq!(r.len(), 0);
    r.insert("A".to_string(), "1".to_string());
    r.insert("B".to_string(), "2".to_string());
    r.insert("A".to_string(), "3".to_string());
    assert_eq!(r.len(), 2);
    assert_eq!(r.get("A").map(|s| s.as_str()), Some("3"));
    assert_eq!(r.get("B").map(|s| s.as_str()), Some("2"));
    assert_eq!(r.get("C"), None);
    let (k, v) = r.field_at(0);
    assert_eq!((k.as_str(), v.as_str()), ("A", "3"));
    assert_eq!(get_or_empty(&r, "C"), "");
    assert_eq!(get_or_empty(&r, "B"), "2");
}

#[test]
fn record_to_row_pairs_headers_with_fields() {
    let r = record_to_row(&strings(&["A", "B", "C"]), &strings(&["1", "2"]));
    assert_eq!(r.len(), 2);
    assert_eq!(r.get("A").unwrap(), "1");
    assert_eq!(r.get("B").unwrap(), "2");
    assert_eq!(r.get("C"), None);
    let r = record_to_row(&strings(&["A", "A"]), &strings(&["1", "2"]));
    assert_eq!(r.len(), 1);
    assert_eq!(r.get("A").unwrap(), "2");
}

#[test]
fn records_from_table_keeps_order() {
    let rows = records_from_table(&strings(&["N"]), &vec![strings(&["1"]), strings(&["2"])]);
    assert_eq!(rows.len(), 2);
    assert_eq!(rows[0].get("N").unwrap(), "1");
    assert_eq!(rows[1].get("N").unwrap(), "2");
}

#[test]
fn parse_csv_records_trims_and_allows_short_rows() {
    let rows = parse_csv_records("A, B ,C\n 1 ,2\n\"x, y\",,z,extra\n").unwrap();
    assert_eq!(rows.len(), 2);
    assert_eq!(rows[0].get("A").unwrap(), "1");
    assert_eq!(rows[0].get("B").unwrap(), "2");
    assert_eq!(rows[0].get("C"), None);
    assert_eq!(rows[1].get("A").unwrap(), "x, y");
    assert_eq!(rows[1].get("B").unwrap(), "");
    assert_eq!(rows[1].get("C").unwrap(), "z");
    assert_eq!(rows[1].len(), 3);
}

#[test]
fn parse_csv_records_header_only() {
    assert!(parse_csv_records("A,B\n").unwrap().is_empty());
    assert!(parse_csv_records("").unwrap().is_empty());
}

#[test]
fn normalize_row_reads_puzzle() {
    let mut r = CsvRow::new();
    r.insert("Puzzle Number".to_string(), " 12 ".to_string());
    r.insert("Title".to_string(), "T".to_string());
    r.insert("Constraints".to_string(), "Killer".to_string());
    let p = normalize_row(&r).unwrap();
    assert_eq!(p.number, 12);
    assert_eq!(p.title, "T");
    assert_eq!(p.setter, "");
    assert_eq!(p.constraints, "Killer");
    assert_eq!(p.puzzle_link, "");
    assert_eq!(p.video_link, "");
}

#[test]
fn normalize_row_requires_a_number() {
    let mut r = CsvRow::new();
    assert!(normalize_row(&r).is_none());
    r.insert("Puzzle Number".to_string(), "twelve".to_string());
    assert!(normalize_row(&r).is_none());
    r.insert("Puzzle Number".to_string(), "3000000000".to_string());
    assert!(normalize_row(&r).is_none());
    r.insert("Puzzle Number".to_string(), "-4".to_string());
    assert_eq!(normalize_row(&r).unwrap().number, -4);
}

#[test]
fn puzzles_from_csv_sorted_and_skipping_bad_rows() {
    let text = "Puzzle Number,Title,Setter,Constraints,Puzzle Link,Video Link\n\
                2,B,S2,Thermo,l2,v2\n\
                1,A,S1,\"Killer, Arrow\",l1,v1\n\
                x,Bad,,,,\n\
                , Empty ,,,,\n\
                 3 , C ,S3,,l3,v3\n";
    let ps = puzzles_from_csv(text).unwrap();
    assert_eq!(ps.iter().map(|p| p.number).collect::<Vec<_>>(), vec![1, 2, 3]);
    assert_eq!(ps[0].title, "A");
    assert_eq!(ps[0].constraints, "Killer, Arrow");
    assert_eq!(ps[1].setter, "S2");
    assert_eq!(ps[2].title, "C");
    assert_eq!(ps[2].video_link, "v3");
}

#[test]
fn puzzles_from_csv_sort_is_stable() {
    let text = "Puzzle Number,Title\n2,first two\n1,one\n2,second two\n";
    let ps = puzzles_from_csv(text).unwrap();
    assert_eq!(ps.iter().map(|p| p.title.as_str()).collect::<Vec<_>>(), vec!["one", "first two", "second two"]);
}

#[test]
fn sort_by_number_orders_stably() {
    let v = vec![puzzle(5, "a"), puzzle(1, "b"), puzzle(5, "c"), puzzle(-2, "d")];
    let s = sort_by_number(v);
    assert_eq!(s.iter().map(|p| p.title.as_str()).collect::<Vec<_>>(), vec!["d", "b", "a", "c"]);
}

#[test]
fn export_header_columns() {
    assert_eq!(
        export_header_strings(),
        strings(&[
            "Puzzle Number",
            "Title",
            "Setter",
            "Constraints",
            "Puzzle Link",
            "Video Link",
            "Solved",
            "Time (Include Hour, like 0:04:50)",
            "Skipped",
            "Video Used",
        ])
    );
}

#[test]
fn export_record_fields() {
    let r = export_record_of(&merged(7, true, false, Some("partial"), Some(290)));
    assert_eq!(r, strings(&["7", "A", "S", "Killer, Thermo", "l", "v", "TRUE", "0:04:50", "FALSE", "partial"]));
    let r = export_record_of(&merged(-3, false, true, None, Some(-5)));
    assert_eq!(r, strings(&["-3", "A", "S", "Killer, Thermo", "l", "v", "FALSE", "", "TRUE", ""]));
}

#[test]
fn progress_export_csv_text() {
    let text = progress_export_csv(&[merged(1, true, false, Some("partial"), Some(290)), merged(2, false, true, None, None)])
        .unwrap();
    assert_eq!(
        text,
        "Puzzle Number,Title,Setter,Constraints,Puzzle Link,Video Link,Solved,\"Time (Include Hour, like 0:04:50)\",Skipped,Video Used\n\
         1,A,S,\"Killer, Thermo\",l,v,TRUE,0:04:50,FALSE,partial\n\
         2,A,S,\"Killer, Thermo\",l,v,FALSE,,TRUE,\n"
    );
}

#[test]
fn progress_export_csv_of_nothing_is_the_header() {
    let text = progress_export_csv(&[]).unwrap();
    assert!(text.starts_with("Puzzle Number,Title,"));
    assert_eq!(text.lines().count(), 1);
}

#[test]
fn export_then_import_gives_back_progress() {
    let ms = vec![
        merged(1, true, false, Some("full"), Some(290)),
        merged(2, false, true, None, None),
        merged(3, true, false, None, Some(4145)),
        merged(4, false, false, None, Some(0)),
    ];
    let text = progress_export_csv(&ms).unwrap();
    let rows = import_rows(&text).unwrap();
    let plan = plan_import(&rows);
    assert_eq!(plan.len(), 4);
    for (e, m) in plan.iter().zip(ms.iter()) {
        assert_eq!(e.number, m.base.number);
        assert_eq!(e.solved, m.solved);
        assert_eq!(e.time_seconds, m.time_seconds);
    }
    let synced = puzzles_from_csv(&text).unwrap();
    assert_eq!(synced.len(), 4);
    assert_eq!(synced[0].constraints, "Killer, Thermo");
    assert_eq!(synced[2].number, 3);
}

#[test]
fn export_text_reads_back_as_its_records() {
    let ms = vec![merged(5, false, false, Some("none"), Some(7)), merged(2, true, true, None, None)];
    let text = progress_export_csv(&ms).unwrap();
    let rows = parse_csv_records(&text).unwrap();
    assert_eq!(rows.len(), 2);
    let header = export_header_strings();
    for (row, m) in rows.iter().zip(ms.iter()) {
        let rec = export_record_of(m);
        assert_eq!(row.len(), header.len());
        for (h, f) in header.iter().zip(rec.iter()) {
            assert_eq!(row.get(h).unwrap(), f);
        }
    }
    let synced = puzzles_from_csv(&text).unwrap();
    assert_eq!(synced.iter().map(|p| p.number).collect::<Vec<_>>(), vec![2, 5]);
}

#[test]
fn export_text_reads_back_trimmed() {
    let mut m = merged(9, true, false, Some(" partial "), Some(65));
    m.base.title = "  Spaced title ".to_string();
    m.base.constraints = " Killer , Thermo ".to_string();
    let text = progress_export_csv(&[m]).unwrap();
    let rows = parse_csv_records(&text).unwrap();
    assert_eq!(rows.len(), 1);
    assert_eq!(rows[0].get("Title").unwrap(), "Spaced title");
    assert_eq!(rows[0].get("Constraints").unwrap(), "Killer , Thermo");
    assert_eq!(rows[0].get("Video Used").unwrap(), "partial");
    let plan = plan_import(&rows);
    assert_eq!((plan[0].number, plan[0].solved, plan[0].time_seconds), (9, true, Some(65)));
    let synced = puzzles_from_csv(&text).unwrap();
    assert_eq!(synced[0].title, "Spaced title");
    assert_eq!(synced[0].constraints, "Killer , Thermo");
}
