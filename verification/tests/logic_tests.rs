use std::collections::HashMap;

use sudoku_tracker::csv_util::CsvRow;
use sudoku_tracker::logic::{
    compute_stats, extract_sheet_id, format_seconds, get_time_string_from_import_row, merge_puzzles,
    normalize_constraint_key, normalize_video_used, parse_solved_from_import, parse_time_to_seconds,
    passes_filters, resolve_import_csv_url, sheet_export_url, time_in_range, timed_sum_fits,
    tokenize_filters, unique_constraints, video_used_label,
};
use sudoku_tracker::models::{MergedPuzzle, ProgressRow, Puzzle};

fn puzzle(number: i32, constraints: &str) -> Puzzle {
    Puzzle {
        number,
        title: format!("Puzzle {number}"),
        setter: "Setter".to_string(),
        constraints: constraints.to_string(),
        puzzle_link: format!("https://example.com/p/{number}"),
        video_link: format!("https://example.com/v/{number}"),
    }
}

fn merged(number: i32, solved: bool, skipped: bool, time_seconds: Option<i64>) -> MergedPuzzle {
    MergedPuzzle {
        base: puzzle(number, ""),
        solved,
        skipped,
        video_used: None,
        video_used_label: "Not used".to_string(),
        time_seconds,
        time_formatted: String::new(),
    }
}

fn merged_with(number: i32, constraints: &str) -> MergedPuzzle {
    let mut m = merged(number, false, false, None);
    m.base.constraints = constraints.to_string();
    m
}

fn row(pairs: &[(&str, &str)]) -> CsvRow {
    let mut r = CsvRow::new();
    for (k, v) in pairs {
        r.insert(k.to_string(), v.to_string());
    }
    r
}

#[test]
fn parse_time_minutes_seconds() {
    assert_eq!(parse_time_to_seconds("4:50"), Some(290));
    assert_eq!(parse_time_to_seconds("04:50"), Some(290));
    assert_eq!(parse_time_to_seconds("0:00"), Some(0));
    assert_eq!(parse_time_to_seconds("75:05"), Some(4505));
}

#[test]
fn parse_time_hours_minutes_seconds() {
    assert_eq!(parse_time_to_seconds("0:04:50"), Some(290));
    assert_eq!(parse_time_to_seconds("1:09:05"), Some(4145));
    assert_eq!(parse_time_to_seconds("10:00:00"), Some(36000));
}

#[test]
fn parse_time_ignores_white_space_anywhere() {
    assert_eq!(parse_time_to_seconds("  4:50  "), Some(290));
    assert_eq!(parse_time_to_seconds(" 1 : 0 9 : 05 "), Some(4145));
    assert_eq!(parse_time_to_seconds("4:\t50"), Some(290));
}

#[test]
fn parse_time_rejects_bad_text() {
    assert_eq!(parse_time_to_seconds(""), None);
    assert_eq!(parse_time_to_seconds("   "), None);
    assert_eq!(parse_time_to_seconds("120"), None);
    assert_eq!(parse_time_to_seconds("4:60"), None);
    assert_eq!(parse_time_to_seconds("1:60:00"), None);
    assert_eq!(parse_time_to_seconds("1:00:60"), None);
    assert_eq!(parse_time_to_seconds("1:2:3:4"), None);
    assert_eq!(parse_time_to_seconds("4:"), None);
    assert_eq!(parse_time_to_seconds(":50"), None);
    assert_eq!(parse_time_to_seconds("-1:00"), None);
    assert_eq!(parse_time_to_seconds("a:bc"), None);
    assert_eq!(parse_time_to_seconds("4.5:00"), None);
}

#[test]
fn parse_time_rejects_pieces_beyond_i64() {
    assert_eq!(parse_time_to_seconds("99999999999999999999:00"), None);
}

#[test]
fn time_in_range_flags_overflowing_hours() {
    assert!(time_in_range("1:09:05"));
    assert!(time_in_range("garbage"));
    assert!(!time_in_range("9223372036854775807:00:00"));
    assert!(time_in_range("2562047788015215:30:07"));
    assert!(!time_in_range("2562047788015215:30:08"));
}

#[test]
fn format_seconds_values() {
    assert_eq!(format_seconds(0), "0:00:00");
    assert_eq!(format_seconds(59), "0:00:59");
    assert_eq!(format_seconds(290), "0:04:50");
    assert_eq!(format_seconds(4145), "1:09:05");
    assert_eq!(format_seconds(36000), "10:00:00");
    assert_eq!(format_seconds(360000), "100:00:00");
}

#[test]
fn format_seconds_negative_is_empty() {
    assert_eq!(format_seconds(-1), "");
    assert_eq!(format_seconds(i64::MIN), "");
}

#[test]
fn time_round_trip_examples() {
    for sec in [0i64, 1, 59, 60, 290, 3599, 3600, 4145, 86399, 123456789, i64::MAX] {
        let text = format_seconds(sec);
        assert_eq!(parse_time_to_seconds(&text), Some(sec), "{text}");
    }
}

#[test]
fn parsed_times_are_not_negative() {
    for t in ["0:00", "00:00:00", "5:07", "12:34:56"] {
        assert!(parse_time_to_seconds(t).unwrap() >= 0);
    }
}

#[test]
fn normalize_video_used_accepts_the_three_values() {
    assert_eq!(normalize_video_used("none"), Some("none".to_string()));
    assert_eq!(normalize_video_used(" Partial "), Some("partial".to_string()));
    assert_eq!(normalize_video_used("FULL"), Some("full".to_string()));
}

#[test]
fn normalize_video_used_rejects_others() {
    assert_eq!(normalize_video_used(""), None);
    assert_eq!(normalize_video_used("some"), None);
    assert_eq!(normalize_video_used("full video"), None);
}

#[test]
fn normalize_video_used_is_stable() {
    for v in ["none", " PARTIAL", "Full "] {
        let once = normalize_video_used(v).unwrap();
        assert_eq!(normalize_video_used(&once), Some(once.clone()));
    }
}

#[test]
fn video_used_label_values() {
    assert_eq!(video_used_label(Some("partial")), "Partial");
    assert_eq!(video_used_label(Some("full")), "Full");
    assert_eq!(video_used_label(Some("none")), "Not used");
    assert_eq!(video_used_label(Some("Full")), "Not used");
    assert_eq!(video_used_label(None), "Not used");
}

#[test]
fn merge_puzzles_uses_stored_progress() {
    let cache = vec![puzzle(1, "Killer"), puzzle(2, "Thermo")];
    let mut progress = HashMap::new();
    progress.insert(
        1,
        ProgressRow { solved: true, skipped: false, video_used: Some("partial".to_string()), time_seconds: Some(290) },
    );
    let m = merge_puzzles(&cache, &progress);
    assert_eq!(m.len(), 2);
    assert_eq!(m[0].base.number, 1);
    assert!(m[0].solved);
    assert!(!m[0].skipped);
    assert_eq!(m[0].video_used.as_deref(), Some("partial"));
    assert_eq!(m[0].video_used_label, "Partial");
    assert_eq!(m[0].time_seconds, Some(290));
    assert_eq!(m[0].time_formatted, "0:04:50");
    assert_eq!(m[1].base.number, 2);
    assert!(!m[1].solved);
    assert!(!m[1].skipped);
    assert_eq!(m[1].video_used, None);
    assert_eq!(m[1].video_used_label, "Not used");
    assert_eq!(m[1].time_seconds, None);
    assert_eq!(m[1].time_formatted, "");
}

#[test]
fn merge_puzzles_keeps_cache_order_and_ignores_unknown_numbers() {
    let cache = vec![puzzle(3, ""), puzzle(1, "")];
    let mut progress = HashMap::new();
    progress.insert(7, ProgressRow { solved: true, skipped: false, video_used: None, time_seconds: None });
    progress.insert(1, ProgressRow { solved: false, skipped: true, video_used: Some("full".into()), time_seconds: None });
    let m = merge_puzzles(&cache, &progress);
    assert_eq!(m.iter().map(|p| p.base.number).collect::<Vec<_>>(), vec![3, 1]);
    assert!(!m[0].solved && !m[0].skipped);
    assert!(m[1].skipped);
    assert_eq!(m[1].video_used_label, "Full");
}

#[test]
fn tokenize_filters_splits_on_commas_and_lines() {
    assert_eq!(tokenize_filters("Killer, thermo\n arrow ,,\n  "), vec!["Killer", "thermo", "arrow"]);
    assert_eq!(tokenize_filters("single"), vec!["single"]);
}

#[test]
fn tokenize_filters_of_empty_text_is_empty() {
    assert!(tokenize_filters("").is_empty());
    assert!(tokenize_filters(" , \n ,").is_empty());
}

#[test]
fn passes_filters_without_terms_passes() {
    assert!(passes_filters("Killer, Thermo", "", ""));
    assert!(passes_filters("", " , ", "\n"));
}

#[test]
fn passes_filters_include_terms() {
    assert!(passes_filters("Killer, Thermo", "thermo", ""));
    assert!(passes_filters("Killer, Thermo", "arrow, KILLER", ""));
    assert!(!passes_filters("Killer", "thermo", ""));
}

#[test]
fn passes_filters_exclusion_wins() {
    assert!(!passes_filters("Killer, Thermo", "", "killer"));
    assert!(!passes_filters("Killer, Thermo", "thermo", "KILLER"));
    assert!(passes_filters("Killer, Thermo", "", "arrow"));
}

#[test]
fn passes_filters_matches_substrings() {
    assert!(passes_filters("German Whispers", "whisper", ""));
    assert!(!passes_filters("German Whispers", "", "man w"));
}

#[test]
fn compute_stats_counts_and_average() {
    let ms = vec![
        merged(1, true, false, Some(100)),
        merged(2, true, false, Some(201)),
        merged(3, false, true, None),
        merged(4, false, false, None),
        merged(5, true, false, None),
        merged(6, true, true, None),
        merged(7, false, false, Some(50)),
    ];
    assert!(timed_sum_fits(&ms));
    let s = compute_stats(&ms);
    assert_eq!(s.total_puzzles, 7);
    assert_eq!(s.solved_count, 4);
    assert_eq!(s.skipped_count, 1);
    assert_eq!(s.active_remaining, 2);
    assert_eq!(s.timed_count, 2);
    assert_eq!(s.average_seconds, Some(151));
    assert_eq!(s.average_formatted, "0:02:31");
    assert_eq!(s.solved_count + s.skipped_count + s.active_remaining, s.total_puzzles);
}

#[test]
fn compute_stats_rounds_to_nearest() {
    let s = compute_stats(&[merged(1, true, false, Some(10)), merged(2, true, false, Some(11)), merged(3, true, false, Some(11))]);
    assert_eq!(s.average_seconds, Some(11));
    let s = compute_stats(&[merged(1, true, false, Some(10)), merged(2, true, false, Some(10)), merged(3, true, false, Some(11))]);
    assert_eq!(s.average_seconds, Some(10));
}

#[test]
fn compute_stats_of_nothing() {
    let s = compute_stats(&[]);
    assert_eq!(s.total_puzzles, 0);
    assert_eq!(s.solved_count, 0);
    assert_eq!(s.skipped_count, 0);
    assert_eq!(s.active_remaining, 0);
    assert_eq!(s.timed_count, 0);
    assert_eq!(s.average_seconds, None);
    assert_eq!(s.average_formatted, "");
}

#[test]
fn timed_sum_fits_detects_overflow() {
    let ms = vec![merged(1, true, false, Some(i64::MAX)), merged(2, true, false, Some(1))];
    assert!(!timed_sum_fits(&ms));
    let ms = vec![merged(1, true, false, Some(i64::MAX)), merged(2, false, false, Some(1))];
    assert!(timed_sum_fits(&ms));
}

#[test]
fn normalize_constraint_key_collapses_and_lowercases() {
    assert_eq!(normalize_constraint_key("  Killer   Cage "), "killer cage");
    assert_eq!(normalize_constraint_key("Thermo\tArrow"), "thermo arrow");
    assert_eq!(normalize_constraint_key(""), "");
}

#[test]
fn unique_constraints_first_text_per_key_sorted() {
    let ms = vec![merged_with(1, "Killer Cage, thermo"), merged_with(2, "killer  cage, Arrow, ,Thermo")];
    assert_eq!(unique_constraints(&ms), vec!["Arrow", "Killer Cage", "thermo"]);
}

#[test]
fn unique_constraints_keys_are_distinct() {
    let ms = vec![merged_with(1, "A b, a B,  A   B , c"), merged_with(2, "C, b")];
    let u = unique_constraints(&ms);
    assert_eq!(u, vec!["A b", "b", "c"]);
    let mut keys: Vec<String> = u.iter().map(|t| normalize_constraint_key(t)).collect();
    keys.dedup();
    assert_eq!(keys.len(), u.len());
}

#[test]
fn unique_constraints_of_no_constraints() {
    assert!(unique_constraints(&[merged_with(1, " , ,"), merged_with(2, "")]).is_empty());
}

#[test]
fn parse_solved_from_import_values() {
    assert!(parse_solved_from_import(&row(&[("Solved", "TRUE")])));
    assert!(parse_solved_from_import(&row(&[("Solved", " true ")])));
    assert!(parse_solved_from_import(&row(&[("Solved", "1")])));
    assert!(parse_solved_from_import(&row(&[("Solved", "yes")])));
    assert!(!parse_solved_from_import(&row(&[("Solved", "no")])));
    assert!(!parse_solved_from_import(&row(&[("Solved", "")])));
    assert!(!parse_solved_from_import(&row(&[("Title", "TRUE")])));
}

#[test]
fn time_string_prefers_the_named_columns() {
    let r = row(&[("Time", "1:00"), ("Time (Include Hour, like 0:04:50)", " 0:04:50 "), ("Time ", "2:00")]);
    assert_eq!(get_time_string_from_import_row(&r), "0:04:50");
    let r = row(&[("Time ", "2:00"), ("Time", " 1:00 ")]);
    assert_eq!(get_time_string_from_import_row(&r), "1:00");
    let r = row(&[("Time", "  "), ("Time ", "2:00")]);
    assert_eq!(get_time_string_from_import_row(&r), "2:00");
}

#[test]
fn time_string_falls_back_to_time_headers() {
    let r = row(&[("Title", "x"), ("Time", ""), (" TIME taken", " 5:00 ")]);
    assert_eq!(get_time_string_from_import_row(&r), "5:00");
}

#[test]
fn time_string_empty_without_time() {
    assert_eq!(get_time_string_from_import_row(&row(&[("Title", "x"), ("Timer", "")])), "");
    assert_eq!(get_time_string_from_import_row(&CsvRow::new()), "");
}

#[test]
fn extract_sheet_id_values() {
    assert_eq!(
        extract_sheet_id("https://docs.google.com/spreadsheets/d/abc_DEF-1/edit#gid=5"),
        Some("abc_DEF-1".to_string())
    );
    assert_eq!(extract_sheet_id("https://docs.google.com/spreadsheets/d/xyz"), Some("xyz".to_string()));
    assert_eq!(extract_sheet_id("https://docs.google.com/spreadsheets/d/xyz?x=1"), Some("xyz".to_string()));
    assert_eq!(extract_sheet_id("https://docs.google.com/spreadsheets/d/xyz&x=1"), Some("xyz".to_string()));
}

#[test]
fn extract_sheet_id_rejects() {
    assert_eq!(extract_sheet_id("https://docs.google.com/spreadsheets/d/"), None);
    assert_eq!(extract_sheet_id("https://docs.google.com/spreadsheets/d//edit"), None);
    assert_eq!(extract_sheet_id("https://docs.google.com/spreadsheets/d/ab.c/edit"), None);
    assert_eq!(extract_sheet_id("https://example.com/file.csv"), None);
}

#[test]
fn sheet_export_url_format() {
    assert_eq!(sheet_export_url("ID", "7"), "https://docs.google.com/spreadsheets/d/ID/export?format=csv&gid=7");
}

#[test]
fn resolve_export_link_drops_fragment() {
    assert_eq!(
        resolve_import_csv_url("https://docs.google.com/spreadsheets/d/ID/export?format=csv&gid=3#frag"),
        "https://docs.google.com/spreadsheets/d/ID/export?format=csv&gid=3"
    );
    assert_eq!(
        resolve_import_csv_url(" https://example.com/x/EXPORT?FORMAT%3Dcsv "),
        "https://example.com/x/EXPORT?FORMAT%3Dcsv"
    );
}

#[test]
fn resolve_sheet_link_to_export() {
    assert_eq!(
        resolve_import_csv_url("https://docs.google.com/spreadsheets/d/ID/edit#gid=123"),
        "https://docs.google.com/spreadsheets/d/ID/export?format=csv&gid=123"
    );
    assert_eq!(
        resolve_import_csv_url("https://docs.google.com/spreadsheets/d/ID/edit?gid=7#gid=9"),
        "https://docs.google.com/spreadsheets/d/ID/export?format=csv&gid=7"
    );
    assert_eq!(
        resolve_import_csv_url("https://docs.google.com/spreadsheets/d/ID/edit?gid=0#x=1&gid=9"),
        "https://docs.google.com/spreadsheets/d/ID/export?format=csv&gid=9"
    );
    assert_eq!(
        resolve_import_csv_url("https://docs.google.com/spreadsheets/d/ID/edit?gid=abc"),
        "https://docs.google.com/spreadsheets/d/ID/export?format=csv&gid=0"
    );
    assert_eq!(
        resolve_import_csv_url("https://docs.google.com/spreadsheets/d/ID/edit"),
        "https://docs.google.com/spreadsheets/d/ID/export?format=csv&gid=0"
    );
}

#[test]
fn resolve_other_links_unchanged() {
    assert_eq!(
        resolve_import_csv_url("https://example.com/spreadsheets/d/ID/edit"),
        "https://example.com/spreadsheets/d/ID/edit"
    );
    assert_eq!(resolve_import_csv_url("  https://example.com/file.csv  "), "https://example.com/file.csv");
    assert_eq!(resolve_import_csv_url("not a url /spreadsheets/d/ID"), "not a url /spreadsheets/d/ID");
}

#[test]
fn more_exclusions_admit_less() {
    let cases = [("Killer, Thermo", "thermo"), ("Arrow", ""), ("Killer", "killer")];
    for (c, inc) in cases {
        for (e, t) in [("", "killer"), ("arrow", "thermo"), ("x", "")] {
            let joined = format!("{e},{t}");
            if passes_filters(c, inc, &joined) {
                assert!(passes_filters(c, inc, e), "{c} {inc} {e} {t}");
            }
        }
    }
    assert!(passes_filters("Killer, Thermo", "", "arrow"));
    assert!(!passes_filters("Killer, Thermo", "", "arrow,killer"));
}

#[test]
fn include_rejection_stays_with_exclusions() {
    assert!(!passes_filters("Killer", "thermo", ""));
    assert!(!passes_filters("Killer", "thermo", "arrow"));
    assert!(!passes_filters("Killer", "thermo", "killer"));
}

#[test]
fn empty_filters_pass_everything() {
    for c in ["", "Killer", "Thermo, Arrow"] {
        assert!(passes_filters(c, "", ""));
    }
}
