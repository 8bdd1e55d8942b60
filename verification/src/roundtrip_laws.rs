//! The progress export is read back by the import and by the sheet sync.
use vstd::prelude::*;
use crate::csv_util::{
    csv_round_trips, export_header, export_record, export_records, flag_text, key_index, trim_fields,
    trim_records,
    lemma_key_index_bounds, lemma_row_views_len, lemma_rows_from_len_spec, row_from, row_get,
    row_get_or_empty, row_puzzle, row_puzzles, row_views, rows_from, CsvRow,
};
use crate::laws::{lemma_format_plain, lemma_trim_plain, law_time_round_trip};
use crate::logic::{
    format_seconds_spec, is_true_text, lowered_headers, named_time, solved_text, time_field_from,
    time_fits, time_text_with, time_value,
};
use crate::models::{MergedPuzzle, MergedView, PuzzleView};
use crate::numbers::{
    decimal, is_digit, lemma_decimal_digits, lemma_parse_signed_decimal, parse_i32_spec, signed_decimal,
};
use crate::service::{import_entry, import_plan_spec, import_row_fits, row_number, row_time, row_time_text, ImportEntry};
use crate::text::{
    all_ascii, ascii_lower, ascii_lower_char, ascii_upper, is_ws, lower_text, starts_with, trim, trim_end,
    trim_start, upper_text,
};

verus! {

/// Each header paired with the field at its position.
pub open spec fn zip_fields(h: Seq<Seq<char>>, rec: Seq<Seq<char>>) -> Seq<(Seq<char>, Seq<char>)> {
    Seq::new(h.len(), |i: int| (h[i], rec[i]))
}

/// With distinct headers and a field for each, a record's row pairs each header with its
/// field.
proof fn lemma_row_from_distinct(h: Seq<Seq<char>>, rec: Seq<Seq<char>>)
    requires
        h.no_duplicates(),
        h.len() <= rec.len(),
    ensures
        row_from(h, rec) == zip_fields(h, rec),
    decreases h.len(),
{
    if h.len() > 0 {
        let n = h.len() - 1;
        let hd = h.drop_last();
        assert forall|i: int, j: int| 0 <= i < hd.len() && 0 <= j < hd.len() && i != j implies hd[i]
            != hd[j] by {
            assert(hd[i] == h[i] && hd[j] == h[j]);
        }
        lemma_row_from_distinct(hd, rec);
        let z = zip_fields(hd, rec);
        let k = h[n];
        lemma_key_index_bounds(z, k);
        assert forall|j: int| 0 <= j < z.len() implies #[trigger] z[j].0 != k by {
            assert(z[j].0 == h[j]);
        }
        assert(key_index(z, k) is None);
        assert(z.push((k, rec[n])) =~= zip_fields(h, rec));
    }
}

/// The field under a header of distinct headers is the field at its position.
proof fn lemma_zip_get(h: Seq<Seq<char>>, rec: Seq<Seq<char>>, i: int)
    requires
        h.no_duplicates(),
        h.len() <= rec.len(),
        0 <= i < h.len(),
    ensures
        row_get(zip_fields(h, rec), h[i]) == Some(rec[i]),
{
    let z = zip_fields(h, rec);
    lemma_key_index_bounds(z, h[i]);
    assert(z[i].0 == h[i]);
    if let Some(j) = key_index(z, h[i]) {
        assert(z[j].0 == h[j]);
    }
}

/// A header that is not among the headers has no field.
proof fn lemma_zip_missing(h: Seq<Seq<char>>, rec: Seq<Seq<char>>, k: Seq<char>)
    requires
        forall|i: int| 0 <= i < h.len() ==> #[trigger] h[i] != k,
    ensures
        row_get(zip_fields(h, rec), k) is None,
{
    let z = zip_fields(h, rec);
    lemma_key_index_bounds(z, k);
    if let Some(j) = key_index(z, k) {
        assert(z[j].0 == h[j]);
    }
}

proof fn lemma_lowered_headers_index(f: Seq<(Seq<char>, Seq<char>)>)
    ensures
        lowered_headers(f).len() == f.len(),
        forall|i: int| 0 <= i < f.len() ==> #[trigger] lowered_headers(f)[i] == lower_text(trim(f[i].0)),
    decreases f.len(),
{
    if f.len() > 0 {
        lemma_lowered_headers_index(f.drop_last());
        assert forall|i: int| 0 <= i < f.len() implies #[trigger] lowered_headers(f)[i] == lower_text(
            trim(f[i].0),
        ) by {
            if i < f.len() - 1 {
                assert(f.drop_last()[i] == f[i]);
            }
        }
    }
}

/// A text that neither starts nor ends with white space is its own trim.
proof fn lemma_trim_ends(s: Seq<char>)
    requires
        s.len() > 0,
        !is_ws(s[0]),
        !is_ws(s.last()),
    ensures
        trim(s) == s,
{
    assert(trim_start(s) == s);
    assert(trim_end(s) == s);
}

/// A trimmed ASCII header whose lowercase form differs from `time` at position `j` does not
/// start with `time`.
proof fn lemma_not_time(h: Seq<char>, j: int)
    requires
        h.len() >= 4,
        0 <= j < 4,
        !is_ws(h[0]),
        !is_ws(h.last()),
        all_ascii(h),
        ascii_lower_char(h[j]) != "time"@[j],
    ensures
        !starts_with(lower_text(trim(h)), "time"@),
{
    reveal_strlit("time");
    lemma_trim_ends(h);
    let l = ascii_lower(h);
    assert(l.take(4)[j] == ascii_lower_char(h[j]));
}

proof fn lemma_header_texts()
    ensures
        export_header().len() == 10,
        export_header().no_duplicates(),
        forall|i: int| 0 <= i < 10 ==> #[trigger] export_header()[i] != "Time"@ && export_header()[i] != "Time "@,
        forall|i: int|
            0 <= i < 10 && i != 7 ==> !starts_with(lower_text(trim(#[trigger] export_header()[i])), "time"@),
{
    let h = export_header();
    reveal_strlit("Puzzle Number");
    reveal_strlit("Title");
    reveal_strlit("Setter");
    reveal_strlit("Constraints");
    reveal_strlit("Puzzle Link");
    reveal_strlit("Video Link");
    reveal_strlit("Solved");
    reveal_strlit("Time (Include Hour, like 0:04:50)");
    reveal_strlit("Skipped");
    reveal_strlit("Video Used");
    reveal_strlit("Time");
    reveal_strlit("Time ");
    assert(h[2][1] != h[6][1]);
    assert(h[3][0] != h[4][0]);
    assert(h[5][6] != h[9][6]);
    assert(h[1][2] != "Time "@[2]);
    assert forall|i: int, j: int| 0 <= i < h.len() && 0 <= j < h.len() && i != j implies h[i] != h[j] by {
        if h[i] == h[j] {
            assert(h[i].len() == h[j].len());
            if (i == 2 && j == 6) || (i == 6 && j == 2) {
                assert(h[i][1] == h[j][1]);
            } else if (i == 3 && j == 4) || (i == 4 && j == 3) {
                assert(h[i][0] == h[j][0]);
            } else if (i == 5 && j == 9) || (i == 9 && j == 5) {
                assert(h[i][6] == h[j][6]);
            }
        }
    }
    assert forall|i: int| 0 <= i < 10 implies #[trigger] h[i] != "Time"@ && h[i] != "Time "@ by {
        if i == 1 {
            assert(h[1][2] != "Time "@[2]);
        } else {
            assert(h[i].len() != 4 && h[i].len() != 5) by {
                if i == 0 {
                } else if i == 2 {
                } else if i == 3 {
                } else if i == 4 {
                } else if i == 5 {
                } else if i == 6 {
                } else if i == 7 {
                } else if i == 8 {
                } else {
                }
            }
        }
    }
    assert forall|i: int| 0 <= i < 10 && i != 7 implies !starts_with(lower_text(trim(#[trigger] h[i])), "time"@) by {
        reveal_strlit("time");
        if i == 1 {
            assert(ascii_lower_char('t') == 't');
            lemma_not_time(h[1], 2);
        } else if i == 0 {
            lemma_not_time(h[0], 0);
        } else if i == 2 {
            lemma_not_time(h[2], 0);
        } else if i == 3 {
            lemma_not_time(h[3], 0);
        } else if i == 4 {
            lemma_not_time(h[4], 0);
        } else if i == 5 {
            lemma_not_time(h[5], 0);
        } else if i == 6 {
            lemma_not_time(h[6], 0);
        } else if i == 8 {
            lemma_not_time(h[8], 0);
        } else {
            lemma_not_time(h[9], 0);
        }
    }
}

/// No field from position `i` on is a non-empty field under a header starting with `time`.
proof fn lemma_no_time_field(f: Seq<(Seq<char>, Seq<char>)>, lw: Seq<Seq<char>>, i: int)
    requires
        0 <= i,
        forall|j: int| i <= j < f.len() ==> !starts_with(#[trigger] lw[j], "time"@) || trim(f[j].1).len() == 0,
    ensures
        time_field_from(f, lw, i) is None,
    decreases f.len() - i,
{
    if i < f.len() {
        lemma_no_time_field(f, lw, i + 1);
    }
}

/// The text of a decimal number is its own trim.
proof fn lemma_number_plain(v: int)
    ensures
        trim(signed_decimal(v)) == signed_decimal(v),
{
    let m: nat = if v < 0 {
        (-v) as nat
    } else {
        v as nat
    };
    lemma_decimal_digits(m);
    let d = decimal(m);
    assert(is_digit(d[0]) && is_digit(d.last()));
    let s = signed_decimal(v);
    if v < 0 {
        assert(s[0] == '-');
        assert(s.last() == d.last());
    }
    lemma_trim_ends(s);
}

/// A merged puzzle written as a row of the progress export is read back by the import as
/// its number, its solved flag and its time (a negative time is written as no time), and
/// by the sheet sync as its puzzle.
pub proof fn law_export_import_round_trip(p: MergedView)
    ensures
        import_row_fits(row_from(export_header(), export_record(p))),
        import_entry(row_from(export_header(), export_record(p))) == Some(
            ImportEntry {
                number: p.base.number,
                solved: p.solved,
                time_seconds: match p.time_seconds {
                    Some(t) => if t >= 0 {
                        Some(t)
                    } else {
                        None
                    },
                    None => None,
                },
            },
        ),
        row_puzzle(row_from(export_header(), export_record(p))) == Some(p.base),
        row_get(row_from(export_header(), export_record(p)), "Solved"@) == Some(
            if p.solved {
                "TRUE"@
            } else {
                "FALSE"@
            },
        ),
        row_get(row_from(export_header(), export_record(p)), "Skipped"@) == Some(
            if p.skipped {
                "TRUE"@
            } else {
                "FALSE"@
            },
        ),
{
    let h = export_header();
    let rec = export_record(p);
    lemma_header_texts();
    lemma_row_from_distinct(h, rec);
    let f = zip_fields(h, rec);
    assert(row_from(h, rec) == f);
    reveal_strlit("Puzzle Number");
    reveal_strlit("Title");
    reveal_strlit("Setter");
    reveal_strlit("Constraints");
    reveal_strlit("Puzzle Link");
    reveal_strlit("Video Link");
    reveal_strlit("Solved");
    reveal_strlit("Time (Include Hour, like 0:04:50)");
    reveal_strlit("TRUE");
    reveal_strlit("FALSE");
    reveal_strlit("1");
    reveal_strlit("YES");
    lemma_zip_get(h, rec, 0);
    lemma_zip_get(h, rec, 1);
    lemma_zip_get(h, rec, 2);
    lemma_zip_get(h, rec, 3);
    lemma_zip_get(h, rec, 4);
    lemma_zip_get(h, rec, 5);
    lemma_zip_get(h, rec, 6);
    lemma_zip_get(h, rec, 7);
    lemma_zip_get(h, rec, 8);
    reveal_strlit("Skipped");
    let n = p.base.number as int;
    lemma_number_plain(n);
    lemma_parse_signed_decimal(n, i32::MIN as int, i32::MAX as int);
    assert(row_number(f) == Some(n));
    let flag = flag_text(p.solved);
    lemma_trim_ends(flag);
    assert(all_ascii(flag));
    assert(ascii_upper(flag) =~= flag);
    assert(solved_text(f) == flag);
    assert(is_true_text(flag) == p.solved);
    let tt = rec[7];
    match p.time_seconds {
        Some(t) if t >= 0 => {
            lemma_format_plain(t as int);
            lemma_trim_ends(tt);
            assert(named_time(f, "Time (Include Hour, like 0:04:50)"@) == Some(tt));
            assert(row_time_text(f) == tt);
            law_time_round_trip(t as int);
            assert(row_time(f) == Some(t as int));
            assert(time_fits(tt));
        },
        _ => {
            assert(tt.len() == 0);
            assert(trim(tt) =~= tt);
            assert(named_time(f, "Time (Include Hour, like 0:04:50)"@) is None);
            lemma_zip_missing(h, rec, "Time"@);
            lemma_zip_missing(h, rec, "Time "@);
            let lw = lowered_headers(f);
            lemma_lowered_headers_index(f);
            assert forall|j: int| 0 <= j < f.len() implies !starts_with(#[trigger] lw[j], "time"@) || trim(
                f[j].1,
            ).len() == 0 by {
                if j != 7 {
                    assert(lw[j] == lower_text(trim(h[j])));
                }
            }
            lemma_no_time_field(f, lw, 0);
            assert(time_text_with(f, lw) == Seq::<char>::empty());
            assert(row_time(f) is None);
        },
    }
}

} // verus!

verus! {

/// The export records of a list: one per puzzle, in order.
pub proof fn lemma_export_records_index(ms: Seq<MergedPuzzle>)
    ensures
        export_records(ms).len() == ms.len(),
        forall|i: int| 0 <= i < ms.len() ==> #[trigger] export_records(ms)[i] == export_record(ms[i]@),
    decreases ms.len(),
{
    if ms.len() > 0 {
        lemma_export_records_index(ms.drop_last());
        assert forall|i: int| 0 <= i < ms.len() implies #[trigger] export_records(ms)[i] == export_record(
            ms[i]@,
        ) by {
            if i < ms.len() - 1 {
                assert(ms.drop_last()[i] == ms[i]);
            }
        }
    }
}

proof fn lemma_header_plain()
    ensures
        forall|k: int| 0 <= k < export_header().len() ==> trim(#[trigger] export_header()[k]) == export_header()[k],
        export_header()[0][0] == 'P',
{
    let h = export_header();
    reveal_strlit("Puzzle Number");
    reveal_strlit("Title");
    reveal_strlit("Setter");
    reveal_strlit("Constraints");
    reveal_strlit("Puzzle Link");
    reveal_strlit("Video Link");
    reveal_strlit("Solved");
    reveal_strlit("Time (Include Hour, like 0:04:50)");
    reveal_strlit("Skipped");
    reveal_strlit("Video Used");
    assert forall|k: int| 0 <= k < h.len() implies trim(#[trigger] h[k]) == h[k] by {
        if k == 0 {
            lemma_trim_ends(h[0]);
        } else if k == 1 {
            lemma_trim_ends(h[1]);
        } else if k == 2 {
            lemma_trim_ends(h[2]);
        } else if k == 3 {
            lemma_trim_ends(h[3]);
        } else if k == 4 {
            lemma_trim_ends(h[4]);
        } else if k == 5 {
            lemma_trim_ends(h[5]);
        } else if k == 6 {
            lemma_trim_ends(h[6]);
        } else if k == 7 {
            lemma_trim_ends(h[7]);
        } else if k == 8 {
            lemma_trim_ends(h[8]);
        } else {
            lemma_trim_ends(h[9]);
        }
    }
}

/// A merged puzzle with the texts that the export copies trimmed: what the export reads
/// back as.
pub open spec fn trimmed_view(p: MergedView) -> MergedView {
    MergedView {
        base: PuzzleView {
            number: p.base.number,
            title: trim(p.base.title),
            setter: trim(p.base.setter),
            constraints: trim(p.base.constraints),
            puzzle_link: trim(p.base.puzzle_link),
            video_link: trim(p.base.video_link),
        },
        solved: p.solved,
        skipped: p.skipped,
        video_used: match p.video_used {
            Some(v) => Some(trim(v)),
            None => None,
        },
        video_used_label: p.video_used_label,
        time_seconds: p.time_seconds,
        time_formatted: p.time_formatted,
    }
}

/// An export record with its fields trimmed is the export record of the trimmed puzzle.
proof fn lemma_record_trimmed(p: MergedView)
    ensures
        export_record(p).len() == 10,
        trim_fields(export_record(p)) == export_record(trimmed_view(p)),
{
    let rec = export_record(p);
    let q = trimmed_view(p);
    reveal_strlit("TRUE");
    reveal_strlit("FALSE");
    lemma_number_plain(p.base.number as int);
    lemma_trim_ends(flag_text(p.solved));
    lemma_trim_ends(flag_text(p.skipped));
    assert(trim(Seq::<char>::empty()) =~= Seq::<char>::empty());
    match p.time_seconds {
        Some(t) => {
            if t >= 0 {
                lemma_format_plain(t as int);
                lemma_trim_plain(format_seconds_spec(t as int));
            }
        },
        None => {},
    }
    assert forall|j: int| 0 <= j < 10 implies #[trigger] trim_fields(rec)[j] == export_record(q)[j] by {
        if j == 7 {
            if let Some(t) = p.time_seconds {
                if t < 0 {
                    assert(rec[7] == Seq::<char>::empty());
                }
            }
        }
    }
    assert(trim_fields(rec) =~= export_record(q));
}

/// The header and the export records of any puzzles are records that the reader reads back
/// field by field, and the header is its own trim.
pub proof fn lemma_export_round_trips(ms: Seq<MergedPuzzle>)
    ensures
        csv_round_trips(seq![export_header()] + export_records(ms)),
        trim_fields(export_header()) == export_header(),
{
    let recs = seq![export_header()] + export_records(ms);
    lemma_export_records_index(ms);
    lemma_header_plain();
    assert(recs[0] == export_header());
    assert forall|i: int| 0 <= i < recs.len() implies (#[trigger] recs[i]).len() == recs[0].len() by {
        if i > 0 {
            assert(recs[i] == export_record(ms[i - 1]@));
        }
    }
    assert(trim_fields(export_header()) =~= export_header());
}

} // verus!

verus! {

/// What the import sets for an exported puzzle: its number, its solved flag and its time
/// (a negative time is exported as no time).
pub open spec fn exported_entry(p: MergedView) -> ImportEntry {
    ImportEntry {
        number: p.base.number,
        solved: p.solved,
        time_seconds: match p.time_seconds {
            Some(t) => if t >= 0 {
                Some(t)
            } else {
                None
            },
            None => None,
        },
    }
}

/// What the import sets for each exported puzzle, in order.
pub open spec fn exported_entries(ms: Seq<MergedPuzzle>) -> Seq<ImportEntry>
    decreases ms.len(),
{
    if ms.len() == 0 {
        Seq::empty()
    } else {
        exported_entries(ms.drop_last()).push(exported_entry(ms.last()@))
    }
}

/// The puzzles of the merged puzzles with their texts trimmed, in order.
pub open spec fn exported_bases(ms: Seq<MergedPuzzle>) -> Seq<PuzzleView>
    decreases ms.len(),
{
    if ms.len() == 0 {
        Seq::empty()
    } else {
        exported_bases(ms.drop_last()).push(trimmed_view(ms.last()@).base)
    }
}

/// Rows read from the progress export give back, through the import, each puzzle's
/// number, solved flag and time in order (and every row can be imported), and through the
/// sheet sync each puzzle, its texts trimmed, in order. The export reads back with every
/// field trimmed, so the rows are built from the trimmed export records.
pub proof fn law_exported_rows_read_back(ms: Seq<MergedPuzzle>, rows: Seq<CsvRow>)
    requires
        row_views(rows) == rows_from(export_header(), trim_records(export_records(ms))),
    ensures
        forall|i: int| 0 <= i < rows.len() ==> import_row_fits(#[trigger] rows[i]@),
        import_plan_spec(rows) == exported_entries(ms),
        row_puzzles(rows_from(export_header(), trim_records(export_records(ms)))) == exported_bases(ms),
    decreases ms.len(),
{
    let h = export_header();
    let tr = trim_records(export_records(ms));
    lemma_row_views_len(rows);
    lemma_rows_from_len_spec(h, tr);
    lemma_export_records_index(ms);
    if ms.len() > 0 {
        let md = ms.drop_last();
        let rd = rows.drop_last();
        let p = ms.last()@;
        lemma_export_records_index(md);
        assert(export_records(ms).drop_last() =~= export_records(md));
        assert(export_records(ms).last() == export_record(p));
        assert(tr.drop_last() =~= trim_records(export_records(md)));
        lemma_record_trimmed(p);
        assert(tr.last() == export_record(trimmed_view(p)));
        let prev = rows_from(h, trim_records(export_records(md)));
        assert(rows_from(h, tr) == prev.push(row_from(h, export_record(trimmed_view(p)))));
        assert(row_views(rows) == row_views(rd).push(rows.last()@));
        assert(row_views(rd) =~= row_views(rows).drop_last());
        assert(prev =~= rows_from(h, tr).drop_last());
        assert(rows.last()@ == row_views(rows).last());
        law_exported_rows_read_back(md, rd);
        law_export_import_round_trip(trimmed_view(p));
        assert(exported_entry(trimmed_view(p)) == exported_entry(p));
        assert forall|i: int| 0 <= i < rows.len() implies import_row_fits(#[trigger] rows[i]@) by {
            if i < rows.len() - 1 {
                assert(rd[i] == rows[i]);
            }
        }
    }
}

} // verus!

verus! {

/// An imported row with a puzzle number counts as solved exactly when it has a `Solved`
/// column whose text, trimmed and uppercased, is `TRUE`, `1` or `YES`; any other text
/// (such as `0`, `N` or `FALSE`), or no such column, gives not solved.
pub proof fn law_import_solved_values(f: Seq<(Seq<char>, Seq<char>)>)
    requires
        row_number(f) is Some,
    ensures
        import_entry(f) is Some,
        import_entry(f)->Some_0.solved <==> (row_get(f, "Solved"@) matches Some(s) && (upper_text(trim(s))
            == "TRUE"@ || upper_text(trim(s)) == "1"@ || upper_text(trim(s)) == "YES"@)),
{
    reveal_strlit("TRUE");
    reveal_strlit("1");
    reveal_strlit("YES");
    assert("TRUE"@.len() == 4 && "1"@.len() == 1 && "YES"@.len() == 3);
    assert(Seq::<char>::empty().len() == 0);
}

} // verus!
