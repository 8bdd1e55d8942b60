//! The decisions of the web service: request checks, progress updates, the state view,
//! imports, downloads and sync bookkeeping.
use vstd::prelude::*;
use crate::csv_util::{
    csv_table, lemma_rows_from_len, parse_csv_records, row_get_or_empty, row_views, rows_from, CsvRow,
};
use crate::logic::{
    get_time_string_from_import_row, lowered_headers, merge_one, normalize_video_used,
    parse_solved_from_import, parse_time_to_seconds, passes_filters, passes_spec, solved_text,
    time_fits, time_in_range, time_text_with, time_value, video_choice, is_true_text,
    resolve_import_csv_url, resolved_link, extract_sheet_id, sheet_id,
};
use crate::models::{
    copy_opt_string, CatalogEntry, FieldValue, ImportBody, Meta, MergedPuzzle, MergedView, ProgressBody, ProgressRow,
    ProgressView, StateQuery,
};
use crate::numbers::{
    parse_i32_chars, parse_i32_spec, parse_i64_chars, parse_i64_spec, parse_u16_chars, parse_u16_spec,
    parse_u64_chars, parse_u64_spec,
};
use crate::text::{
    chars_of, contains, contains_chars, eq_chars, lower_text, push_string, starts_with,
    starts_with_chars, slice_chars, str_to_lowercase, string_of, trim, trim_chars, trim_start,
    trim_start_chars, trim_str,
};
use crate::url_parts::{
    clear_url_query, parse_url, parsed_url, replace_url_query, url_with_query_pairs,
    url_without_fragment, url_without_query, UrlInfo, UrlInfoView,
};
use vstd::string::{StringExecFns, StringSliceAdditionalSpecFns};

verus! {

/// An error answered to a request, with its message.
#[derive(Debug, Clone)]
pub enum ApiError {
    BadRequest(String),
    BadGateway(String),
    GatewayTimeout(String),
    Internal(String),
}

impl ApiError {
    /// The HTTP status code answered for this error.
    pub fn status_code(&self) -> (c: u16)
        ensures
            c == match self {
                ApiError::BadRequest(_) => 400u16,
                ApiError::BadGateway(_) => 502u16,
                ApiError::GatewayTimeout(_) => 504u16,
                ApiError::Internal(_) => 500u16,
            },
    {
        match self {
            ApiError::BadRequest(_) => 400,
            ApiError::BadGateway(_) => 502,
            ApiError::GatewayTimeout(_) => 504,
            ApiError::Internal(_) => 500,
        }
    }

    /// The message answered for this error.
    pub fn message(&self) -> (m: String)
        ensures
            m@ == match self {
                ApiError::BadRequest(s) => s@,
                ApiError::BadGateway(s) => s@,
                ApiError::GatewayTimeout(s) => s@,
                ApiError::Internal(s) => s@,
            },
    {
        match self {
            ApiError::BadRequest(s) => s.clone(),
            ApiError::BadGateway(s) => s.clone(),
            ApiError::GatewayTimeout(s) => s.clone(),
            ApiError::Internal(s) => s.clone(),
        }
    }
}

/// `r` is a bad-request error with message `m`.
pub open spec fn is_bad_request(r: ApiError, m: Seq<char>) -> bool {
    r matches ApiError::BadRequest(s) && s@ == m
}

/// Puzzle numbers must be positive.
pub fn check_puzzle_number(number: i32) -> (r: Result<(), ApiError>)
    ensures
        r is Ok <==> number > 0,
        r matches Err(e) ==> is_bad_request(e, "Invalid puzzle number"@),
{
    if number <= 0 {
        return Err(ApiError::BadRequest("Invalid puzzle number".to_owned()));
    }
    Ok(())
}

pub open spec fn video_error() -> Seq<char> {
    "videoUsed must be none, partial, or full"@
}

pub open spec fn seconds_error() -> Seq<char> {
    "Invalid timeSeconds"@
}

pub open spec fn time_format_error() -> Seq<char> {
    "Use a time like 4:50, 04:50, 0:04:50, or 1:09:05 (minutes:seconds or hours:minutes:seconds)"@
}

/// Solved and skipped after an update: `active` or `clearStatus` clears both; otherwise
/// `skipped` then `solved` are applied, setting one clearing the other.
pub open spec fn status_after(solved: bool, skipped: bool, body: ProgressBody) -> (bool, bool) {
    if body.active == Some(true) || body.clear_status == Some(true) {
        (false, false)
    } else {
        let (so, sk) = match body.skipped {
            Some(x) => (if x {
                false
            } else {
                solved
            }, x),
            None => (solved, skipped),
        };
        match body.solved {
            Some(y) => (y, if y {
                false
            } else {
                sk
            }),
            None => (so, sk),
        }
    }
}

/// The video-use value after an update, or the error message.
pub open spec fn video_after(current: Option<Seq<char>>, body: ProgressBody) -> Result<Option<Seq<char>>, Seq<char>> {
    match body.video_used {
        None => Ok(current),
        Some(FieldValue::Null) => Ok(None),
        Some(FieldValue::Text(v)) => if v@.len() == 0 {
            Ok(None)
        } else {
            match video_choice(lower_text(trim(v@))) {
                Some(n) => Ok(Some(n)),
                None => Err(video_error()),
            }
        },
        Some(_) => Err(video_error()),
    }
}

/// An optional `i64` as an optional integer.
pub open spec fn opt_int(o: Option<i64>) -> Option<int> {
    match o {
        Some(t) => Some(t as int),
        None => None,
    }
}

/// The recorded time after an update, or the error message: `clearTime` clears it;
/// `timeSeconds` (a number or digits, not negative) sets it, and `null` or the empty text
/// leaves it; otherwise a non-blank `time` such as `4:50` sets it.
pub open spec fn time_after(current: Option<i64>, body: ProgressBody) -> Result<Option<int>, Seq<char>> {
    if body.clear_time == Some(true) {
        Ok(None)
    } else {
        match body.time_seconds {
            Some(FieldValue::Null) => Ok(opt_int(current)),
            Some(FieldValue::Int(n)) => if n < 0 {
                Err(seconds_error())
            } else {
                Ok(Some(n as int))
            },
            Some(FieldValue::Text(s)) => if s@.len() == 0 {
                Ok(opt_int(current))
            } else {
                match parse_i64_spec(s@) {
                    None => Err(seconds_error()),
                    Some(n) => if n < 0 {
                        Err(seconds_error())
                    } else {
                        Ok(Some(n))
                    },
                }
            },
            Some(FieldValue::Other) => Err(seconds_error()),
            None => match body.time {
                Some(t) => if trim(t@).len() == 0 {
                    Ok(opt_int(current))
                } else {
                    match time_value(t@) {
                        Some(v) => Ok(Some(v)),
                        None => Err(time_format_error()),
                    }
                },
                None => Ok(opt_int(current)),
            },
        }
    }
}

/// The stored progress a puzzle starts from: its row, or nothing done.
pub open spec fn base_progress(existing: Option<ProgressView>) -> ProgressView {
    match existing {
        Some(e) => e,
        None => ProgressView { solved: false, skipped: false, video_used: None, time_seconds: None },
    }
}

/// Reading `time` of the update does not overflow (the time is read only when neither the
/// video value fails nor `clearTime` or `timeSeconds` decide the time).
pub open spec fn progress_time_fits(existing: Option<ProgressView>, body: ProgressBody) -> bool {
    (video_after(base_progress(existing).video_used, body) is Ok && body.clear_time != Some(true)
        && body.time_seconds is None && body.time is Some) ==> time_fits(body.time->0@)
}

} // verus!

verus! {

pub open spec fn opt_progress(o: Option<ProgressRow>) -> Option<ProgressView> {
    match o {
        Some(r) => Some(r@),
        None => None,
    }
}

/// The stored progress after an update, or the message of the error it is refused with.
pub open spec fn progress_result(existing: Option<ProgressView>, body: ProgressBody) -> Result<ProgressView, Seq<char>> {
    let b = base_progress(existing);
    let st = status_after(b.solved, b.skipped, body);
    match video_after(b.video_used, body) {
        Err(m) => Err(m),
        Ok(v) => match time_after(b.time_seconds, body) {
            Err(m) => Err(m),
            Ok(t) => Ok(
                ProgressView {
                    solved: st.0,
                    skipped: st.1,
                    video_used: v,
                    time_seconds: match t {
                        Some(x) => Some(x as i64),
                        None => None,
                    },
                },
            ),
        },
    }
}

fn video_update(current: Option<String>, body: &ProgressBody) -> (r: Result<Option<String>, ApiError>)
    ensures
        match (r, video_after(current.deep_view(), *body)) {
            (Ok(v), Ok(sv)) => v.deep_view() == sv,
            (Err(e), Err(m)) => is_bad_request(e, m),
            _ => false,
        },
{
    match &body.video_used {
        None => Ok(current),
        Some(FieldValue::Null) => Ok(None),
        Some(FieldValue::Text(v)) => {
            if v.as_str().is_empty() {
                Ok(None)
            } else {
                match normalize_video_used(v.as_str()) {
                    Some(n) => Ok(Some(n)),
                    None => Err(ApiError::BadRequest("videoUsed must be none, partial, or full".to_owned())),
                }
            }
        },
        Some(_) => Err(ApiError::BadRequest("videoUsed must be none, partial, or full".to_owned())),
    }
}

fn time_update(current: Option<i64>, body: &ProgressBody) -> (r: Result<Option<i64>, ApiError>)
    requires
        (body.clear_time != Some(true) && body.time_seconds is None && body.time is Some)
            ==> time_fits(body.time->0@),
    ensures
        match (r, time_after(current, *body)) {
            (Ok(v), Ok(sv)) => opt_int(v) == sv,
            (Err(e), Err(m)) => is_bad_request(e, m),
            _ => false,
        },
{
    if body.clear_time == Some(true) {
        return Ok(None);
    }
    match &body.time_seconds {
        Some(FieldValue::Null) => Ok(current),
        Some(FieldValue::Int(n)) => {
            if *n < 0 {
                Err(ApiError::BadRequest("Invalid timeSeconds".to_owned()))
            } else {
                Ok(Some(*n))
            }
        },
        Some(FieldValue::Text(s)) => {
            if s.as_str().is_empty() {
                Ok(current)
            } else {
                match parse_i64_chars(&chars_of(s.as_str())) {
                    None => Err(ApiError::BadRequest("Invalid timeSeconds".to_owned())),
                    Some(n) => if n < 0 {
                        Err(ApiError::BadRequest("Invalid timeSeconds".to_owned()))
                    } else {
                        Ok(Some(n))
                    },
                }
            }
        },
        Some(FieldValue::Other) => Err(ApiError::BadRequest("Invalid timeSeconds".to_owned())),
        None => match &body.time {
            Some(t) => {
                let tt = trim_str(t.as_str());
                if tt.as_str().is_empty() {
                    Ok(current)
                } else {
                    match parse_time_to_seconds(t.as_str()) {
                        Some(v) => Ok(Some(v)),
                        None => Err(
                            ApiError::BadRequest(
                                "Use a time like 4:50, 04:50, 0:04:50, or 1:09:05 (minutes:seconds or hours:minutes:seconds)".to_owned(),
                            ),
                        ),
                    }
                }
            },
            None => Ok(current),
        },
    }
}

/// Applies a progress update to the stored progress of a puzzle (`None`: nothing stored).
pub fn apply_progress_body(existing: Option<ProgressRow>, body: &ProgressBody) -> (r: Result<ProgressRow, ApiError>)
    requires
        progress_time_fits(opt_progress(existing), *body),
    ensures
        match (r, progress_result(opt_progress(existing), *body)) {
            (Ok(row), Ok(v)) => row@ == v,
            (Err(e), Err(m)) => is_bad_request(e, m),
            _ => false,
        },
{
    let (solved0, skipped0, video0, time0) = match existing {
        Some(e) => (e.solved, e.skipped, e.video_used, e.time_seconds),
        None => (false, false, None, None),
    };
    let mut solved = solved0;
    let mut skipped = skipped0;
    if body.active == Some(true) || body.clear_status == Some(true) {
        solved = false;
        skipped = false;
    } else {
        if let Some(sk) = body.skipped {
            skipped = sk;
            if skipped {
                solved = false;
            }
        }
        if let Some(so) = body.solved {
            solved = so;
            if solved {
                skipped = false;
            }
        }
    }
    let video_used = match video_update(video0, body) {
        Ok(v) => v,
        Err(e) => return Err(e),
    };
    let time_seconds = match time_update(time0, body) {
        Ok(t) => t,
        Err(e) => return Err(e),
    };
    Ok(ProgressRow { solved, skipped, video_used, time_seconds })
}

/// Whether `apply_progress_body` may be called: reading the update's `time`, if it comes
/// to that, does not overflow.
pub fn progress_time_in_range(existing: &Option<ProgressRow>, body: &ProgressBody) -> (b: bool)
    ensures
        b == progress_time_fits(opt_progress(*existing), *body),
{
    let video0 = match existing {
        Some(e) => copy_opt_string(&e.video_used),
        None => None,
    };
    let video_ok = video_update(video0, body).is_ok();
    match (&body.time_seconds, &body.time) {
        (None, Some(t)) => {
            if video_ok && body.clear_time != Some(true) {
                time_in_range(t.as_str())
            } else {
                true
            }
        },
        _ => true,
    }
}

/// Applies a progress update when reading its time does not overflow `i64`, and answers
/// `None` when it would.
pub fn try_apply_progress_body(existing: Option<ProgressRow>, body: &ProgressBody) -> (r: Option<
    Result<ProgressRow, ApiError>,
>)
    ensures
        r is None <==> !progress_time_fits(opt_progress(existing), *body),
        r matches Some(res) ==> match (res, progress_result(opt_progress(existing), *body)) {
            (Ok(row), Ok(v)) => row@ == v,
            (Err(e), Err(m)) => is_bad_request(e, m),
            _ => false,
        },
{
    if !progress_time_in_range(&existing, body) {
        return None;
    }
    Some(apply_progress_body(existing, body))
}

} // verus!

verus! {

/// The filter texts to use and whether to store them: each query value given replaces the
/// stored one, and any given value means the pair is stored.
pub fn resolve_filters(stored_include: String, stored_exclude: String, q: &StateQuery) -> (r: (String, String, bool))
    ensures
        r.0@ == match q.include_text {
            Some(v) => v@,
            None => stored_include@,
        },
        r.1@ == match q.exclude_text {
            Some(v) => v@,
            None => stored_exclude@,
        },
        r.2 == (q.include_text is Some || q.exclude_text is Some),
{
    let mut persist = false;
    let inc = match &q.include_text {
        Some(v) => {
            persist = true;
            v.clone()
        },
        None => stored_include,
    };
    let exc = match &q.exclude_text {
        Some(v) => {
            persist = true;
            v.clone()
        },
        None => stored_exclude,
    };
    (inc, exc, persist)
}

/// The views of merged puzzles.
pub open spec fn merged_views(ms: Seq<MergedPuzzle>) -> Seq<MergedView>
    decreases ms.len(),
{
    if ms.len() == 0 {
        Seq::empty()
    } else {
        merged_views(ms.drop_last()).push(ms.last()@)
    }
}

/// The merged puzzles whose constraints pass the filters, in order.
pub open spec fn passing(ms: Seq<MergedPuzzle>, inc: Seq<char>, exc: Seq<char>) -> Seq<MergedView>
    decreases ms.len(),
{
    if ms.len() == 0 {
        Seq::empty()
    } else {
        let r = passing(ms.drop_last(), inc, exc);
        if passes_spec(ms.last().base.constraints@, inc, exc) {
            r.push(ms.last()@)
        } else {
            r
        }
    }
}

/// The puzzles that pass the filters, and the catalog: every puzzle with whether it passes.
pub fn filter_catalog(merged: &[MergedPuzzle], include_text: &str, exclude_text: &str) -> (r: (
    Vec<MergedPuzzle>,
    Vec<CatalogEntry>,
))
    ensures
        merged_views(r.0@) == passing(merged@, include_text@, exclude_text@),
        r.1.len() == merged.len(),
        forall|i: int|
            0 <= i < merged.len() ==> (#[trigger] r.1[i]).merged@ == merged[i]@ && r.1[i].matches_filter
                == passes_spec(merged[i].base.constraints@, include_text@, exclude_text@),
{
    let mut filtered: Vec<MergedPuzzle> = Vec::new();
    let mut catalog: Vec<CatalogEntry> = Vec::new();
    let mut i: usize = 0;
    assert(merged@.take(0) =~= Seq::<MergedPuzzle>::empty());
    while i < merged.len()
        invariant
            i <= merged.len(),
            merged_views(filtered@) == passing(merged@.take(i as int), include_text@, exclude_text@),
            catalog.len() == i,
            forall|k: int|
                0 <= k < i ==> (#[trigger] catalog[k]).merged@ == merged[k]@ && catalog[k].matches_filter
                    == passes_spec(merged[k].base.constraints@, include_text@, exclude_text@),
        decreases merged.len() - i,
    {
        assert(merged@.take(i + 1).drop_last() == merged@.take(i as int));
        let p = &merged[i];
        let ok = passes_filters(p.base.constraints.as_str(), include_text, exclude_text);
        if ok {
            let ghost before = filtered@;
            let d = p.duplicate();
            let ghost dv = d@;
            filtered.push(d);
            assert(filtered@.drop_last() == before);
            assert(filtered@.last()@ == dv);
        }
        catalog.push(CatalogEntry { merged: p.duplicate(), matches_filter: ok });
        i += 1;
    }
    assert(merged@.take(merged.len() as int) == merged@);
    (filtered, catalog)
}

/// Neither solved nor skipped.
pub open spec fn is_active(p: MergedPuzzle) -> bool {
    !p.solved && !p.skipped
}

/// The first puzzle of the list that is neither solved nor skipped.
pub fn next_puzzle(filtered: &[MergedPuzzle]) -> (r: Option<MergedPuzzle>)
    ensures
        r matches Some(p) ==> exists|i: int|
            0 <= i < filtered.len() && #[trigger] filtered[i]@ == p@ && is_active(filtered[i])
                && forall|j: int| 0 <= j < i ==> !is_active(#[trigger] filtered[j]),
        r is None ==> forall|j: int| 0 <= j < filtered.len() ==> !is_active(#[trigger] filtered[j]),
        r matches Some(p) ==> !p.solved && !p.skipped,
        r matches Some(p) ==> exists|i: int|
            0 <= i < filtered.len() && #[trigger] filtered[i]@ == p@ && !filtered[i].solved
                && !filtered[i].skipped && forall|j: int|
                0 <= j < i ==> (#[trigger] filtered[j]).solved || filtered[j].skipped,
        r is None ==> forall|j: int| 0 <= j < filtered.len() ==> (#[trigger] filtered[j]).solved || filtered[j].skipped,
{
    let mut i: usize = 0;
    while i < filtered.len()
        invariant
            i <= filtered.len(),
            forall|j: int| 0 <= j < i ==> !is_active(#[trigger] filtered[j]),
        decreases filtered.len() - i,
    {
        if !filtered[i].solved && !filtered[i].skipped {
            let p = filtered[i].duplicate();
            assert(filtered[i as int]@ == p@);
            assert(p.solved == filtered[i as int].solved && p.skipped == filtered[i as int].skipped);
            return Some(p);
        }
        i += 1;
    }
    None
}

} // verus!

verus! {

/// What an imported row sets for its puzzle.
#[derive(Debug, Clone, Copy)]
pub struct ImportEntry {
    pub number: i32,
    pub solved: bool,
    pub time_seconds: Option<i64>,
}

/// The puzzle number of an imported row, if its trimmed `Puzzle Number` reads as an `i32`.
pub open spec fn row_number(f: Seq<(Seq<char>, Seq<char>)>) -> Option<int> {
    parse_i32_spec(trim(row_get_or_empty(f, "Puzzle Number"@)))
}

/// The time text of an imported row.
pub open spec fn row_time_text(f: Seq<(Seq<char>, Seq<char>)>) -> Seq<char> {
    time_text_with(f, lowered_headers(f))
}

/// The time an imported row records: none for an empty time text, else the time it reads
/// as (none when it does not read).
pub open spec fn row_time(f: Seq<(Seq<char>, Seq<char>)>) -> Option<int> {
    if row_time_text(f).len() == 0 {
        None
    } else {
        time_value(row_time_text(f))
    }
}

/// Reading the row's time, which happens when it has a puzzle number and a time text,
/// does not overflow.
pub open spec fn import_row_fits(f: Seq<(Seq<char>, Seq<char>)>) -> bool {
    (row_number(f) is Some && row_time_text(f).len() > 0) ==> time_fits(row_time_text(f))
}

/// What an imported row sets: `None` for a row without a valid puzzle number.
pub open spec fn import_entry(f: Seq<(Seq<char>, Seq<char>)>) -> Option<ImportEntry> {
    match row_number(f) {
        None => None,
        Some(n) => Some(
            ImportEntry {
                number: n as i32,
                solved: is_true_text(solved_text(f)),
                time_seconds: match row_time(f) {
                    Some(t) => Some(t as i64),
                    None => None,
                },
            },
        ),
    }
}

/// What the rows of an import set, in order; rows without a valid puzzle number are
/// skipped.
pub open spec fn import_plan_spec(rows: Seq<CsvRow>) -> Seq<ImportEntry>
    decreases rows.len(),
{
    if rows.len() == 0 {
        Seq::empty()
    } else {
        let r = import_plan_spec(rows.drop_last());
        match import_entry(rows.last()@) {
            Some(e) => r.push(e),
            None => r,
        }
    }
}

/// What one imported row sets.
pub fn import_entry_of(row: &CsvRow) -> (r: Option<ImportEntry>)
    requires
        import_row_fits(row@),
    ensures
        r == import_entry(row@),
{
    let num_text = match row.get("Puzzle Number") {
        Some(s) => s.clone(),
        None => String::new(),
    };
    let num = match parse_i32_chars(&trim_chars(&chars_of(num_text.as_str()))) {
        Some(n) => n,
        None => return None,
    };
    let solved = parse_solved_from_import(row);
    let tstr = get_time_string_from_import_row(row);
    let time_seconds = if tstr.as_str().is_empty() {
        None
    } else {
        parse_time_to_seconds(tstr.as_str())
    };
    Some(ImportEntry { number: num, solved, time_seconds })
}

/// Whether `import_entry_of` may be called on the row: reading its time does not overflow.
pub fn import_row_in_range(row: &CsvRow) -> (b: bool)
    ensures
        b == import_row_fits(row@),
{
    let num_text = match row.get("Puzzle Number") {
        Some(s) => s.clone(),
        None => String::new(),
    };
    if parse_i32_chars(&trim_chars(&chars_of(num_text.as_str()))).is_none() {
        return true;
    }
    let tstr = get_time_string_from_import_row(row);
    if tstr.as_str().is_empty() {
        return true;
    }
    time_in_range(tstr.as_str())
}

/// What the rows of an import set, in order, skipping rows without a valid puzzle number.
pub fn plan_import(rows: &Vec<CsvRow>) -> (r: Vec<ImportEntry>)
    requires
        forall|i: int| 0 <= i < rows.len() ==> import_row_fits(#[trigger] rows[i]@),
    ensures
        r@ == import_plan_spec(rows@),
{
    let mut out: Vec<ImportEntry> = Vec::new();
    let mut i: usize = 0;
    assert(rows@.take(0) =~= Seq::<CsvRow>::empty());
    while i < rows.len()
        invariant
            i <= rows.len(),
            forall|k: int| 0 <= k < rows.len() ==> import_row_fits(#[trigger] rows[k]@),
            out@ == import_plan_spec(rows@.take(i as int)),
        decreases rows.len() - i,
    {
        assert(rows@.take(i + 1).drop_last() == rows@.take(i as int));
        assert(rows@.take(i + 1).last() == rows@[i as int]);
        match import_entry_of(&rows[i]) {
            Some(e) => out.push(e),
            None => {},
        }
        i += 1;
    }
    assert(rows@.take(rows.len() as int) == rows@);
    out
}

/// What the rows of an import set, when reading every row's time fits in `i64`; `None`
/// when some row's time would overflow.
pub fn try_plan_import(rows: &Vec<CsvRow>) -> (r: Option<Vec<ImportEntry>>)
    ensures
        r is None <==> exists|i: int| 0 <= i < rows.len() && !import_row_fits(#[trigger] rows[i]@),
        r matches Some(v) ==> v@ == import_plan_spec(rows@),
{
    let mut i: usize = 0;
    while i < rows.len()
        invariant
            i <= rows.len(),
            forall|k: int| 0 <= k < i ==> import_row_fits(#[trigger] rows[k]@),
        decreases rows.len() - i,
    {
        if !import_row_in_range(&rows[i]) {
            return None;
        }
        i += 1;
    }
    Some(plan_import(rows))
}

} // verus!

verus! {

/// Why an import link is refused, if it is: it must start with `https://`, parse, and have
/// the scheme `https`.
pub open spec fn import_link_problem(url: Seq<char>, parsed: Option<UrlInfoView>) -> Option<Seq<char>> {
    if !starts_with(url, "https://"@) {
        Some("URL must start with https://"@)
    } else {
        match parsed {
            None => Some("Invalid URL"@),
            Some(u) => if u.scheme != "https"@ {
                Some("Only https URLs are allowed"@)
            } else {
                None
            },
        }
    }
}

/// Checks an import link, given its parse.
pub fn check_import_url(url: &str, parsed: &Option<UrlInfo>) -> (r: Result<(), ApiError>)
    ensures
        match import_link_problem(url@, parsed.deep_view()) {
            Some(m) => r matches Err(e) && is_bad_request(e, m),
            None => r is Ok,
        },
{
    if !starts_with_chars(&chars_of(url), &chars_of("https://")) {
        return Err(ApiError::BadRequest("URL must start with https://".to_owned()));
    }
    match parsed {
        None => Err(ApiError::BadRequest("Invalid URL".to_owned())),
        Some(u) => {
            if !eq_chars(&chars_of(u.scheme.as_str()), &chars_of("https")) {
                Err(ApiError::BadRequest("Only https URLs are allowed".to_owned()))
            } else {
                Ok(())
            }
        },
    }
}

/// The download address and the replace-all choice of an import request, or why the link
/// is refused. The link is trimmed first.
pub fn import_request(body: &ImportBody) -> (r: Result<(String, bool), ApiError>)
    ensures
        match import_link_problem(trim(body.url@), parsed_url(trim(body.url@))) {
            Some(m) => r matches Err(e) && is_bad_request(e, m),
            None => r matches Ok((fetch, replace_all)) && replace_all == (body.replace_all == Some(true))
                && fetch@ == resolved_link(
                trim(trim(body.url@)),
                lower_text(trim(trim(body.url@))),
                parsed_url(trim(trim(body.url@))),
                url_without_fragment(trim(trim(body.url@))),
            ),
        },
{
    let url = trim_str(body.url.as_str());
    let parsed = parse_url(url.as_str());
    match check_import_url(url.as_str(), &parsed) {
        Err(e) => Err(e),
        Ok(()) => {
            let replace_all = match body.replace_all {
                Some(b) => b,
                None => false,
            };
            Ok((resolve_import_csv_url(url.as_str()), replace_all))
        },
    }
}

/// The largest CSV an import accepts, in bytes.
pub const MAX_IMPORT_BYTES: usize = 26214400;

/// The rows of a downloaded import CSV: refused when the text is empty or over
/// `MAX_IMPORT_BYTES` bytes, fails when it cannot be read as CSV, and is refused when it
/// has no data rows.
pub fn import_rows(text: &str) -> (r: Result<Vec<CsvRow>, ApiError>)
    ensures
        (text@.len() == 0 || text.len() > MAX_IMPORT_BYTES) ==> (r matches Err(e)
            && is_bad_request(e, "CSV is empty or too large"@)),
        !(text@.len() == 0 || text.len() > MAX_IMPORT_BYTES) ==> match csv_table(text@) {
            None => r matches Err(ApiError::Internal(_)),
            Some((h, recs)) => if recs.len() == 0 {
                (r matches Err(e) && is_bad_request(e, "No data rows found in CSV"@))
            } else {
                (r matches Ok(rows) && row_views(rows@) == rows_from(h, recs))
            },
        },
{
    if text.is_empty() || text.len() > MAX_IMPORT_BYTES {
        return Err(ApiError::BadRequest("CSV is empty or too large".to_owned()));
    }
    match parse_csv_records(text) {
        Err(e) => Err(ApiError::Internal(e.message)),
        Ok(rows) => {
            proof {
                let tbl = csv_table(text@)->Some_0;
                let (h, recs) = tbl;
                lemma_rows_from_len(rows@, h, recs);
            }
            if rows.len() == 0 {
                Err(ApiError::BadRequest("No data rows found in CSV".to_owned()))
            } else {
                Ok(rows)
            }
        },
    }
}

/// The message when no download address gave a CSV, from the last status seen.
pub open spec fn failure_message(last: Seq<char>) -> Seq<char> {
    if contains(last, "404"@) {
        "Google returned Not Found ("@ + last
            + "). Open the sheet with **Share → General access → Anyone with the link: Viewer**, then try again. If the puzzle tab is not the first sheet, open that tab and copy the URL so it includes `gid=`."@
    } else if last.len() == 0 {
        "Could not download CSV"@
    } else {
        "Could not download CSV ("@ + last + ")"@
    }
}

/// The message when no download address gave a CSV.
pub fn download_failure_message(last_status: &str) -> (r: String)
    ensures
        r@ == failure_message(last_status@),
{
    if contains_chars(&chars_of(last_status), &chars_of("404")) {
        let mut s = "Google returned Not Found (".to_owned();
        s.append(last_status);
        s.append(
            "). Open the sheet with **Share → General access → Anyone with the link: Viewer**, then try again. If the puzzle tab is not the first sheet, open that tab and copy the URL so it includes `gid=`.",
        );
        s
    } else if last_status.is_empty() {
        "Could not download CSV".to_owned()
    } else {
        let mut s = "Could not download CSV (".to_owned();
        s.append(last_status);
        s.append(")");
        s
    }
}

} // verus!

verus! {

/// A `gid` pair is among the query pairs.
pub open spec fn has_gid(pairs: Seq<(Seq<char>, Seq<char>)>) -> bool {
    exists|i: int| 0 <= i < pairs.len() && (#[trigger] pairs[i]).0 == "gid"@
}

/// The query pairs other than `gid`, in order.
pub open spec fn pairs_without_gid(pairs: Seq<(Seq<char>, Seq<char>)>) -> Seq<(Seq<char>, Seq<char>)>
    decreases pairs.len(),
{
    if pairs.len() == 0 {
        pairs
    } else {
        let r = pairs_without_gid(pairs.drop_last());
        if pairs.last().0 == "gid"@ {
            r
        } else {
            r.push(pairs.last())
        }
    }
}

/// The query pairs other than `gid`, when there is a `gid` pair; `None` otherwise.
pub fn query_without_gid(pairs: &Vec<(String, String)>) -> (r: Option<Vec<(String, String)>>)
    ensures
        r is None <==> !has_gid(pairs.deep_view()),
        r matches Some(k) ==> k.deep_view() == pairs_without_gid(pairs.deep_view()),
{
    let ghost pv = pairs.deep_view();
    let gid = chars_of("gid");
    let mut found = false;
    let mut kept: Vec<(String, String)> = Vec::new();
    let mut i: usize = 0;
    assert(pv.take(0) =~= Seq::<(Seq<char>, Seq<char>)>::empty());
    while i < pairs.len()
        invariant
            i <= pairs.len(),
            pv == pairs.deep_view(),
            gid@ == "gid"@,
            kept.deep_view() == pairs_without_gid(pv.take(i as int)),
            found == exists|j: int| 0 <= j < i && (#[trigger] pv[j]).0 == "gid"@,
        decreases pairs.len() - i,
    {
        assert(pv.take(i + 1).drop_last() == pv.take(i as int));
        assert(pv[i as int] == pairs@[i as int].deep_view());
        if eq_chars(&chars_of(pairs[i].0.as_str()), &gid) {
            found = true;
        } else {
            let ghost before = kept.deep_view();
            let p = (pairs[i].0.clone(), pairs[i].1.clone());
            let ghost pv1 = p.deep_view();
            kept.push(p);
            assert(kept.deep_view() =~= before.push(pv1));
        }
        i += 1;
    }
    assert(pv.take(pairs.len() as int) == pv);
    if found {
        Some(kept)
    } else {
        None
    }
}

/// A link with its `gid` query pairs removed, when it parses and has one.
pub open spec fn gid_free_link(first: Seq<char>, parsed: Option<UrlInfoView>) -> Option<Seq<char>> {
    match parsed {
        None => None,
        Some(u) => if has_gid(u.query) {
            let kept = pairs_without_gid(u.query);
            if kept.len() == 0 {
                url_without_query(first)
            } else {
                url_with_query_pairs(first, kept)
            }
        } else {
            None
        },
    }
}

/// The plain export address of a sheet.
pub open spec fn plain_export_link(id: Seq<char>) -> Seq<char> {
    "https://docs.google.com/spreadsheets/d/"@ + id + "/export?format=csv"@
}

/// The visualization CSV address of a sheet's first tab.
pub open spec fn gviz_link(id: Seq<char>) -> Seq<char> {
    "https://docs.google.com/spreadsheets/d/"@ + id + "/gviz/tq?tqx=out:csv&gid=0"@
}

/// The addresses to try, in order, before dropping repeats.
pub open spec fn candidate_seq(first: Seq<char>, stripped: Option<Seq<char>>, id: Option<Seq<char>>) -> Seq<Seq<char>> {
    let a = seq![first];
    let b = match stripped {
        Some(s) => a.push(s),
        None => a,
    };
    match id {
        Some(i) => b.push(plain_export_link(i)).push(gviz_link(i)),
        None => b,
    }
}

/// The texts with repeats dropped, first occurrences kept in order.
pub open spec fn without_repeats(s: Seq<Seq<char>>) -> Seq<Seq<char>>
    decreases s.len(),
{
    if s.len() == 0 {
        s
    } else {
        let r = without_repeats(s.drop_last());
        if s.drop_last().contains(s.last()) {
            r
        } else {
            r.push(s.last())
        }
    }
}

fn push_new(out: &mut Vec<String>, all: Ghost<Seq<Seq<char>>>, s: String)
    requires
        old(out).deep_view() == without_repeats(all@),
    ensures
        final(out).deep_view() == without_repeats(all@.push(s@)),
{
    let sc = chars_of(s.as_str());
    let mut seen = false;
    let mut i: usize = 0;
    proof {
        lemma_without_repeats_contains(all@);
    }
    while i < out.len()
        invariant
            i <= out.len(),
            out.deep_view() == without_repeats(all@),
            sc@ == s@,
            seen == exists|j: int| 0 <= j < i && #[trigger] out.deep_view()[j] == s@,
        decreases out.len() - i,
    {
        assert(out.deep_view()[i as int] == out@[i as int]@);
        if eq_chars(&chars_of(out[i].as_str()), &sc) {
            seen = true;
        }
        i += 1;
    }
    proof {
        lemma_without_repeats_contains(all@);
        assert(all@.push(s@).drop_last() =~= all@);
        assert(all@.push(s@).last() == s@);
        if seen {
            let j = choose|j: int| 0 <= j < out.len() && #[trigger] out.deep_view()[j] == s@;
            assert(without_repeats(all@).contains(s@));
        } else {
            if all@.contains(s@) {
                assert(without_repeats(all@).contains(s@));
                let j = choose|j: int| 0 <= j < without_repeats(all@).len() && without_repeats(all@)[j] == s@;
                assert(out.deep_view()[j] == s@);
            }
        }
    }
    if !seen {
        push_string(out, s);
    }
}

pub proof fn lemma_without_repeats_contains(s: Seq<Seq<char>>)
    ensures
        forall|x: Seq<char>| s.contains(x) <==> #[trigger] without_repeats(s).contains(x),
    decreases s.len(),
{
    if s.len() > 0 {
        lemma_without_repeats_contains(s.drop_last());
        let r = without_repeats(s.drop_last());
        assert forall|x: Seq<char>| s.contains(x) <==> #[trigger] without_repeats(s).contains(x) by {
            if s.contains(x) {
                let i = choose|i: int| 0 <= i < s.len() && s[i] == x;
                if i < s.len() - 1 {
                    assert(s.drop_last()[i] == x);
                    assert(s.drop_last().contains(x));
                    assert(r.contains(x));
                    let k = choose|k: int| 0 <= k < r.len() && r[k] == x;
                    if !s.drop_last().contains(s.last()) {
                        assert(r.push(s.last())[k] == x);
                    }
                } else {
                    if s.drop_last().contains(s.last()) {
                        let k = choose|k: int| 0 <= k < r.len() && r[k] == x;
                    } else {
                        assert(r.push(s.last())[r.len() as int] == x);
                    }
                }
            }
            if without_repeats(s).contains(x) {
                let k = choose|k: int| 0 <= k < without_repeats(s).len() && without_repeats(s)[k] == x;
                if k < r.len() {
                    assert(r[k] == x);
                    assert(r.contains(x));
                    assert(s.drop_last().contains(x));
                    let i = choose|i: int| 0 <= i < s.drop_last().len() && s.drop_last()[i] == x;
                    assert(s[i] == x);
                } else {
                    assert(s[s.len() - 1] == x);
                }
            }
        }
    }
}

/// The addresses to try for a download, in order, without repeats: the link itself, the
/// link without its `gid` pairs (when given), then the sheet's plain export and
/// visualization CSV addresses (when a sheet id is given).
pub fn candidate_list(first: &str, stripped: Option<String>, id: Option<String>) -> (r: Vec<String>)
    ensures
        r.deep_view() == without_repeats(candidate_seq(first@, stripped.deep_view(), id.deep_view())),
{
    let mut out: Vec<String> = Vec::new();
    let ghost mut all: Seq<Seq<char>> = Seq::empty();
    assert(out.deep_view() =~= without_repeats(all));
    push_new(&mut out, Ghost(all), first.to_owned());
    proof {
        all = all.push(first@);
    }
    match stripped {
        Some(s) => {
            let ghost sv = s@;
            push_new(&mut out, Ghost(all), s);
            proof {
                all = all.push(sv);
            }
        },
        None => {},
    }
    match id {
        Some(i) => {
            let mut u1 = "https://docs.google.com/spreadsheets/d/".to_owned();
            u1.append(i.as_str());
            u1.append("/export?format=csv");
            let ghost v1 = u1@;
            push_new(&mut out, Ghost(all), u1);
            proof {
                all = all.push(v1);
            }
            let mut u2 = "https://docs.google.com/spreadsheets/d/".to_owned();
            u2.append(i.as_str());
            u2.append("/gviz/tq?tqx=out:csv&gid=0");
            let ghost v2 = u2@;
            push_new(&mut out, Ghost(all), u2);
            proof {
                all = all.push(v2);
            }
        },
        None => {},
    }
    assert(all =~= candidate_seq(first@, stripped.deep_view(), id.deep_view()));
    out
}

/// The addresses to try when downloading an import: the link, the link without its `gid`
/// query pairs, and the sheet's plain export and visualization CSV addresses, in that
/// order and without repeats.
pub fn download_candidates(first_url: &str) -> (r: Vec<String>)
    ensures
        r.deep_view() == without_repeats(
            candidate_seq(first_url@, gid_free_link(first_url@, parsed_url(first_url@)), sheet_id(first_url@)),
        ),
{
    let stripped = match parse_url(first_url) {
        None => None,
        Some(u) => match query_without_gid(&u.query) {
            None => None,
            Some(kept) => if kept.len() == 0 {
                clear_url_query(first_url)
            } else {
                replace_url_query(first_url, &kept)
            },
        },
    };
    let id = extract_sheet_id(first_url);
    candidate_list(first_url, stripped, id)
}

} // verus!

verus! {

/// At most the first `n` characters.
pub open spec fn first_chars(s: Seq<char>, n: int) -> Seq<char> {
    if s.len() <= n {
        s
    } else {
        s.take(n)
    }
}

/// A lowercased start of a response that is an HTML page.
pub open spec fn html_start(lower: Seq<char>) -> bool {
    starts_with(lower, "<!doctype"@) || starts_with(lower, "<html"@)
}

/// Whether a lowercased response start is an HTML page: `<!doctype` or `<html`.
pub fn is_html_start(lower: &str) -> (b: bool)
    ensures
        b == html_start(lower@),
{
    let c = chars_of(lower);
    starts_with_chars(&c, &chars_of("<!doctype")) || starts_with_chars(&c, &chars_of("<html"))
}

/// Whether a downloaded text is an HTML page rather than CSV: its first 64 characters after
/// leading white space, lowercased, start with `<!doctype` or `<html`.
pub fn looks_like_html(text: &str) -> (b: bool)
    ensures
        b == html_start(lower_text(first_chars(trim_start(text@), 64))),
{
    let t = trim_start_chars(&chars_of(text));
    let n: usize = if t.len() <= 64 {
        t.len()
    } else {
        64
    };
    let head = slice_chars(&t, 0, n);
    assert(head@ == first_chars(t@, 64));
    let lower = str_to_lowercase(string_of(&head).as_str());
    is_html_start(lower.as_str())
}

/// The sync interval in milliseconds: the first variable given (else `86400000`), read as
/// a `u64` (else `86400000`), at least `60000`.
pub open spec fn sync_interval_spec(primary: Option<Seq<char>>, alias: Option<Seq<char>>) -> int {
    let raw = match primary {
        Some(p) => p,
        None => match alias {
            Some(a) => a,
            None => "86400000"@,
        },
    };
    let v = match parse_u64_spec(raw) {
        Some(v) => v,
        None => 86400000,
    };
    if v < 60000 {
        60000
    } else {
        v
    }
}

/// The sync interval from its setting and the setting's alias.
pub fn sync_interval_ms(primary: Option<&str>, alias: Option<&str>) -> (r: u64)
    ensures
        r == sync_interval_spec(primary.deep_view(), alias.deep_view()),
        r >= 60000,
{
    let raw = match primary {
        Some(p) => p,
        None => match alias {
            Some(a) => a,
            None => "86400000",
        },
    };
    let v = match parse_u64_chars(&chars_of(raw)) {
        Some(v) => v,
        None => 86400000,
    };
    if v < 60000 {
        60000
    } else {
        v
    }
}

/// The listening port: the setting read as a `u16`, else `3840`.
pub fn parse_port(raw: &str) -> (r: u16)
    ensures
        r == match parse_u16_spec(raw@) {
            Some(p) => p,
            None => 3840,
        },
{
    match parse_u16_chars(&chars_of(raw)) {
        Some(p) => p,
        None => 3840,
    }
}

impl Meta {
    /// Records a sync that succeeded at the given time: the error is cleared.
    pub fn record_sync_success(&mut self, at: String)
        ensures
            final(self).last_sync_at.deep_view() == Some(at@),
            final(self).last_sync_error is None,
    {
        self.last_sync_error = None;
        self.last_sync_at = Some(at);
    }

    /// Records a failed sync: the error is kept, the time of the last success stays.
    pub fn record_sync_failure(&mut self, message: String)
        ensures
            final(self).last_sync_error.deep_view() == Some(message@),
            final(self).last_sync_at.deep_view() == old(self).last_sync_at.deep_view(),
    {
        self.last_sync_error = Some(message);
    }
}

/// Which of the later columns the progress table lacks: `skipped`, `video_used`.
pub fn missing_columns(cols: &Vec<String>) -> (r: (bool, bool))
    ensures
        r.0 == !cols.deep_view().contains("skipped"@),
        r.1 == !cols.deep_view().contains("video_used"@),
{
    let ghost cv = cols.deep_view();
    let skipped = chars_of("skipped");
    let video = chars_of("video_used");
    let mut has_skipped = false;
    let mut has_video = false;
    let mut i: usize = 0;
    while i < cols.len()
        invariant
            i <= cols.len(),
            cv == cols.deep_view(),
            skipped@ == "skipped"@,
            video@ == "video_used"@,
            has_skipped == exists|j: int| 0 <= j < i && #[trigger] cv[j] == "skipped"@,
            has_video == exists|j: int| 0 <= j < i && #[trigger] cv[j] == "video_used"@,
        decreases cols.len() - i,
    {
        let c = chars_of(cols[i].as_str());
        assert(cv[i as int] == cols@[i as int]@);
        if eq_chars(&c, &skipped) {
            has_skipped = true;
        }
        if eq_chars(&c, &video) {
            has_video = true;
        }
        i += 1;
    }
    (!has_skipped, !has_video)
}

/// The `Content-Disposition` of an export made at the given time stamp.
pub fn export_disposition(stamp: &str) -> (r: String)
    ensures
        r@ == "attachment; filename=\"sudoku-adventure-export-"@ + stamp@ + ".csv\""@,
{
    let mut s = "attachment; filename=\"sudoku-adventure-export-".to_owned();
    s.append(stamp);
    s.append(".csv\"");
    s
}

} // verus!
