//! Times, video-use labels, merging, filters, statistics and sheet addresses.
use vstd::prelude::*;
use std::collections::HashMap;
use crate::csv_util::{row_get, CsvRow};
use crate::models::{
    copy_opt_string, MergedPuzzle, MergedView, ProgressRow, ProgressView, Puzzle, PuzzleView, Stats,
};
use crate::numbers::{
    all_digits, decimal, is_digit, is_digit_char, pad2, parse_i64_chars, parse_i64_spec,
    push_decimal, push_pad2,
};
use crate::url_parts::{parse_url, parsed_url, strip_url_fragment, url_without_fragment, UrlInfo, UrlInfoView};
use crate::text::{
    chars_of, collapse_ws, find_chars, first_occurrence, occurs_at, slice_chars, collapse_ws_chars, contains, contains_chars, eq_chars, lex_le, lex_lt,
    lex_lt_chars, lemma_lex_lt_trans, lemma_lex_lt_irrefl, insert_string, lower_text, nonempty_only, push_string, split_chars, split_on,
    starts_with, starts_with_chars, str_to_lowercase, str_to_uppercase, string_of, strip_ws,
    upper_text, strip_ws_chars, trim, trim_chars, trim_each, trim_str,
};

verus! {

/// The pieces of a time once white space is removed: `None` when the text is empty or a
/// piece is empty or holds a non-digit.
pub open spec fn time_pieces(s: Seq<char>) -> Option<Seq<Seq<char>>> {
    let t = strip_ws(s);
    let parts = split_on(t, ':', ':');
    if t.len() == 0 {
        None
    } else if exists|i: int| 0 <= i < parts.len() && ((#[trigger] parts[i]).len() == 0 || !all_digits(parts[i])) {
        None
    } else {
        Some(parts)
    }
}

/// The number of seconds a time text denotes, `m:ss` or `h:mm:ss` with minutes and seconds
/// below 60, each piece read as an `i64`.
pub open spec fn time_value(s: Seq<char>) -> Option<int> {
    match time_pieces(s) {
        None => None,
        Some(parts) => if parts.len() == 3 {
            match (parse_i64_spec(parts[0]), parse_i64_spec(parts[1]), parse_i64_spec(parts[2])) {
                (Some(h), Some(m), Some(sec)) => if m > 59 || sec > 59 {
                    None
                } else {
                    Some(h * 3600 + m * 60 + sec)
                },
                _ => None,
            }
        } else if parts.len() == 2 {
            match (parse_i64_spec(parts[0]), parse_i64_spec(parts[1])) {
                (Some(m), Some(sec)) => if sec > 59 {
                    None
                } else {
                    Some(m * 60 + sec)
                },
                _ => None,
            }
        } else {
            None
        },
    }
}

/// The seconds of a time text fit in an `i64` (so reading it does not overflow).
pub open spec fn time_fits(s: Seq<char>) -> bool {
    match time_value(s) {
        Some(v) => v <= i64::MAX,
        None => true,
    }
}

fn time_value_exec(v: &Vec<char>) -> (r: Option<i128>)
    ensures
        r matches Some(n) ==> time_value(v@) == Some(n as int),
        r is None ==> time_value(v@) is None,
{
    let t = strip_ws_chars(v);
    if t.len() == 0 {
        return None;
    }
    let parts = split_chars(&t, ':', ':');
    let ghost pv = parts.deep_view();
    let mut i: usize = 0;
    while i < parts.len()
        invariant
            i <= parts.len(),
            pv == parts.deep_view(),
            t@ == strip_ws(v@),
            t@.len() > 0,
            pv == split_on(t@, ':', ':'),
            forall|k: int| 0 <= k < i ==> (#[trigger] pv[k]).len() > 0 && all_digits(pv[k]),
        decreases parts.len() - i,
    {
        assert(pv[i as int] == parts@[i as int]@);
        if parts[i].len() == 0 {
            assert((pv[i as int]).len() == 0);
            return None;
        }
        let mut k: usize = 0;
        while k < parts[i].len()
            invariant
                i < parts.len(),
                pv == parts.deep_view(),
                pv[i as int] == parts@[i as int]@,
                t@ == strip_ws(v@),
                t@.len() > 0,
                pv == split_on(t@, ':', ':'),
                k <= parts@[i as int]@.len(),
                forall|j: int| 0 <= j < k ==> is_digit(#[trigger] parts@[i as int]@[j]),
            decreases parts@[i as int]@.len() - k,
        {
            if !is_digit_char(parts[i][k]) {
                assert(!all_digits(pv[i as int]));
                return None;
            }
            k += 1;
        }
        i += 1;
    }
    assert(time_pieces(v@) == Some(pv));
    if parts.len() == 3 {
        assert(pv[0] == parts@[0]@ && pv[1] == parts@[1]@ && pv[2] == parts@[2]@);
        let h = match parse_i64_chars(&parts[0]) {
            Some(x) => x,
            None => return None,
        };
        let m = match parse_i64_chars(&parts[1]) {
            Some(x) => x,
            None => return None,
        };
        let sec = match parse_i64_chars(&parts[2]) {
            Some(x) => x,
            None => return None,
        };
        if m > 59 || sec > 59 {
            return None;
        }
        Some(h as i128 * 3600 + m as i128 * 60 + sec as i128)
    } else if parts.len() == 2 {
        assert(pv[0] == parts@[0]@ && pv[1] == parts@[1]@);
        let m = match parse_i64_chars(&parts[0]) {
            Some(x) => x,
            None => return None,
        };
        let sec = match parse_i64_chars(&parts[1]) {
            Some(x) => x,
            None => return None,
        };
        if sec > 59 {
            return None;
        }
        Some(m as i128 * 60 + sec as i128)
    } else {
        None
    }
}

/// Reads a time such as `4:50`, `04:50`, `0:04:50` or `1:09:05` (white space anywhere is
/// ignored) as a number of seconds.
pub fn parse_time_to_seconds(s: &str) -> (r: Option<i64>)
    requires
        time_fits(s@),
    ensures
        r matches Some(n) ==> time_value(s@) == Some(n as int),
        r is None ==> time_value(s@) is None,
{
    let v = chars_of(s);
    match time_value_exec(&v) {
        Some(n) => Some(n as i64),
        None => None,
    }
}

/// Whether `parse_time_to_seconds` may be called on this text: the seconds it denotes,
/// if any, fit in an `i64`.
pub fn time_in_range(s: &str) -> (b: bool)
    ensures
        b == time_fits(s@),
{
    let v = chars_of(s);
    match time_value_exec(&v) {
        Some(n) => n <= i64::MAX as i128,
        None => true,
    }
}

/// `h:mm:ss` for a non-negative number of seconds, the empty text for a negative one.
pub open spec fn format_seconds_spec(sec: int) -> Seq<char> {
    if sec < 0 {
        Seq::empty()
    } else {
        decimal((sec / 3600) as nat) + seq![':'] + pad2(((sec % 3600) / 60) as nat) + seq![':']
            + pad2((sec % 60) as nat)
    }
}

/// Writes seconds as `h:mm:ss`; a negative number gives the empty text.
pub fn format_seconds(sec: i64) -> (r: String)
    ensures
        r@ == format_seconds_spec(sec as int),
{
    if sec < 0 {
        return String::new();
    }
    let h = sec / 3600;
    let m = (sec % 3600) / 60;
    let s = sec % 60;
    let mut out: Vec<char> = Vec::new();
    push_decimal(&mut out, h as u64);
    out.push(':');
    push_pad2(&mut out, m as u64);
    out.push(':');
    push_pad2(&mut out, s as u64);
    assert(out@ =~= format_seconds_spec(sec as int));
    string_of(&out)
}

} // verus!

verus! {

/// The three accepted video-use values.
pub open spec fn is_video_choice(t: Seq<char>) -> bool {
    t == "none"@ || t == "partial"@ || t == "full"@
}

/// The video-use value a lowercased text stands for.
pub open spec fn video_choice(t: Seq<char>) -> Option<Seq<char>> {
    if is_video_choice(t) {
        Some(t)
    } else {
        None
    }
}

/// The video-use value for an already trimmed and lowercased text: the text itself when it
/// is `none`, `partial` or `full`, else `None`.
pub fn video_used_from_lowered(t: &str) -> (r: Option<String>)
    ensures
        r.deep_view() == video_choice(t@),
{
    let v = chars_of(t);
    let none = chars_of("none");
    let partial = chars_of("partial");
    let full = chars_of("full");
    if eq_chars(&v, &none) || eq_chars(&v, &partial) || eq_chars(&v, &full) {
        Some(t.to_owned())
    } else {
        None
    }
}

/// Reads a video-use value: trimmed and lowercased, it must be `none`, `partial` or `full`.
pub fn normalize_video_used(v: &str) -> (r: Option<String>)
    ensures
        r.deep_view() == video_choice(lower_text(trim(v@))),
{
    let t = trim_str(v);
    let l = str_to_lowercase(t.as_str());
    video_used_from_lowered(l.as_str())
}

/// The label shown for a video-use value.
pub open spec fn video_label(v: Option<Seq<char>>) -> Seq<char> {
    match v {
        Some(t) => if t == "partial"@ {
            "Partial"@
        } else if t == "full"@ {
            "Full"@
        } else {
            "Not used"@
        },
        None => "Not used"@,
    }
}

/// `Partial`, `Full`, or `Not used` for anything else.
pub fn video_used_label(video_used: Option<&str>) -> (r: String)
    ensures
        r@ == video_label(video_used.deep_view()),
{
    match video_used {
        Some(t) => {
            let v = chars_of(t);
            if eq_chars(&v, &chars_of("partial")) {
                "Partial".to_owned()
            } else if eq_chars(&v, &chars_of("full")) {
                "Full".to_owned()
            } else {
                "Not used".to_owned()
            }
        },
        None => "Not used".to_owned(),
    }
}

/// The progress stored for a puzzle number, if any.
pub open spec fn progress_for(progress: Map<i32, ProgressRow>, number: i32) -> Option<ProgressView> {
    if progress.contains_key(number) {
        Some(progress[number]@)
    } else {
        None
    }
}

/// A puzzle combined with its stored progress (none stored: not solved, not skipped).
pub open spec fn merge_one(p: PuzzleView, pr: Option<ProgressView>) -> MergedView {
    let solved = match pr {
        Some(r) => r.solved,
        None => false,
    };
    let skipped = match pr {
        Some(r) => r.skipped,
        None => false,
    };
    let video_used = match pr {
        Some(r) => r.video_used,
        None => None,
    };
    let time_seconds = match pr {
        Some(r) => r.time_seconds,
        None => None,
    };
    MergedView {
        base: p,
        solved,
        skipped,
        video_used,
        video_used_label: video_label(video_used),
        time_seconds,
        time_formatted: match time_seconds {
            Some(t) => format_seconds_spec(t as int),
            None => Seq::empty(),
        },
    }
}

fn merge_single(p: &Puzzle, progress: &HashMap<i32, ProgressRow>) -> (r: MergedPuzzle)
    ensures
        r@ == merge_one(p@, progress_for(progress@, p.number)),
{
    broadcast use vstd::std_specs::hash::group_hash_axioms;
    let pr = progress.get(&p.number);
    let (solved, skipped, video_used, time_seconds) = match pr {
        Some(row) => (row.solved, row.skipped, copy_opt_string(&row.video_used), row.time_seconds),
        None => (false, false, None, None),
    };
    let label = match &video_used {
        Some(s) => video_used_label(Some(s.as_str())),
        None => video_used_label(None),
    };
    let time_formatted = match time_seconds {
        Some(t) => format_seconds(t),
        None => String::new(),
    };
    MergedPuzzle {
        base: p.duplicate(),
        solved,
        skipped,
        video_used,
        video_used_label: label,
        time_seconds,
        time_formatted,
    }
}

/// Each puzzle of the cache, in order, with its stored progress.
pub fn merge_puzzles(cache: &[Puzzle], progress: &HashMap<i32, ProgressRow>) -> (r: Vec<MergedPuzzle>)
    ensures
        r.len() == cache.len(),
        forall|i: int|
            0 <= i < cache.len() ==> (#[trigger] r[i])@ == merge_one(
                cache[i]@,
                progress_for(progress@, cache[i].number),
            ),
{
    let mut out: Vec<MergedPuzzle> = Vec::new();
    let mut i: usize = 0;
    while i < cache.len()
        invariant
            i <= cache.len(),
            out.len() == i,
            forall|k: int|
                0 <= k < i ==> (#[trigger] out[k])@ == merge_one(
                    cache[k]@,
                    progress_for(progress@, cache[k].number),
                ),
        decreases cache.len() - i,
    {
        out.push(merge_single(&cache[i], progress));
        i += 1;
    }
    out
}

} // verus!

verus! {

/// Filter terms of a text: the pieces between commas and line breaks, trimmed, the empty
/// ones dropped.
pub open spec fn filter_tokens(raw: Seq<char>) -> Seq<Seq<char>> {
    nonempty_only(trim_each(split_on(raw, '\n', ',')))
}

/// Splits a filter text at commas and line breaks into trimmed, non-empty terms.
pub fn tokenize_filters(raw: &str) -> (r: Vec<String>)
    ensures
        r.deep_view() == filter_tokens(raw@),
{
    let v = chars_of(raw);
    let pieces = split_chars(&v, '\n', ',');
    let ghost pv = pieces.deep_view();
    let mut out: Vec<String> = Vec::new();
    let mut i: usize = 0;
    assert(pv.take(0) =~= Seq::<Seq<char>>::empty());
    while i < pieces.len()
        invariant
            i <= pieces.len(),
            pv == pieces.deep_view(),
            out.deep_view() == nonempty_only(trim_each(pv.take(i as int))),
        decreases pieces.len() - i,
    {
        assert(pv.take(i + 1).drop_last() == pv.take(i as int));
        assert(pv[i as int] == pieces@[i as int]@);
        assert(trim_each(pv.take(i + 1)) == trim_each(pv.take(i as int)).push(trim(pv[i as int])));
        let t = trim_chars(&pieces[i]);
        let ghost tt = trim_each(pv.take(i + 1));
        assert(tt.drop_last() == trim_each(pv.take(i as int)));
        assert(tt.last() == t@);
        if t.len() > 0 {
            push_string(&mut out, string_of(&t));
        }
        i += 1;
    }
    assert(pv.take(pieces.len() as int) == pv);
    out
}

/// Each term lowercased.
pub open spec fn lower_each(ts: Seq<Seq<char>>) -> Seq<Seq<char>>
    decreases ts.len(),
{
    if ts.len() == 0 {
        ts
    } else {
        lower_each(ts.drop_last()).push(lower_text(ts.last()))
    }
}

/// Some term occurs in the text.
pub open spec fn any_term_in(c: Seq<char>, terms: Seq<Seq<char>>) -> bool {
    exists|i: int| 0 <= i < terms.len() && contains(c, #[trigger] terms[i])
}

/// The filter rule: an excluded term that occurs rejects; otherwise no included terms
/// accepts, and else some included term must occur.
pub open spec fn filter_decision(c: Seq<char>, include_terms: Seq<Seq<char>>, exclude_terms: Seq<Seq<char>>) -> bool {
    if any_term_in(c, exclude_terms) {
        false
    } else if include_terms.len() == 0 {
        true
    } else {
        any_term_in(c, include_terms)
    }
}

/// Whether the constraints pass the include and exclude filters, compared in lowercase.
pub open spec fn passes_spec(constraints: Seq<char>, include_raw: Seq<char>, exclude_raw: Seq<char>) -> bool {
    filter_decision(
        lower_text(constraints),
        lower_each(filter_tokens(include_raw)),
        lower_each(filter_tokens(exclude_raw)),
    )
}

fn any_term_in_exec(c: &Vec<char>, terms: &Vec<String>) -> (r: bool)
    ensures
        r == any_term_in(c@, terms.deep_view()),
{
    let ghost tv = terms.deep_view();
    let mut i: usize = 0;
    while i < terms.len()
        invariant
            i <= terms.len(),
            tv == terms.deep_view(),
            forall|k: int| 0 <= k < i ==> !contains(c@, #[trigger] tv[k]),
        decreases terms.len() - i,
    {
        let t = chars_of(terms[i].as_str());
        assert(tv[i as int] == terms@[i as int]@);
        if contains_chars(c, &t) {
            return true;
        }
        i += 1;
    }
    false
}

/// The filter rule on text and terms that are already lowercased.
pub fn passes_lowered(c: &str, include_terms: &Vec<String>, exclude_terms: &Vec<String>) -> (r: bool)
    ensures
        r == filter_decision(c@, include_terms.deep_view(), exclude_terms.deep_view()),
{
    let cv = chars_of(c);
    if any_term_in_exec(&cv, exclude_terms) {
        return false;
    }
    if include_terms.len() == 0 {
        return true;
    }
    any_term_in_exec(&cv, include_terms)
}

fn lower_all(ts: &Vec<String>) -> (r: Vec<String>)
    ensures
        r.deep_view() == lower_each(ts.deep_view()),
{
    let ghost tv = ts.deep_view();
    let mut out: Vec<String> = Vec::new();
    let mut i: usize = 0;
    assert(tv.take(0) =~= Seq::<Seq<char>>::empty());
    while i < ts.len()
        invariant
            i <= ts.len(),
            tv == ts.deep_view(),
            out.deep_view() == lower_each(tv.take(i as int)),
        decreases ts.len() - i,
    {
        assert(tv.take(i + 1).drop_last() == tv.take(i as int));
        assert(tv[i as int] == ts@[i as int]@);
        push_string(&mut out, str_to_lowercase(ts[i].as_str()));
        i += 1;
    }
    assert(tv.take(ts.len() as int) == tv);
    out
}

/// Whether a puzzle's constraints pass the filters: no excluded term occurs and, when
/// there are included terms, one of them occurs; compared in lowercase.
pub fn passes_filters(constraints_text: &str, include_raw: &str, exclude_raw: &str) -> (r: bool)
    ensures
        r == passes_spec(constraints_text@, include_raw@, exclude_raw@),
{
    let c = str_to_lowercase(constraints_text);
    let included = lower_all(&tokenize_filters(include_raw));
    let excluded = lower_all(&tokenize_filters(exclude_raw));
    passes_lowered(c.as_str(), &included, &excluded)
}

} // verus!

verus! {

pub open spec fn count_solved(ms: Seq<MergedPuzzle>) -> nat
    decreases ms.len(),
{
    if ms.len() == 0 {
        0
    } else {
        count_solved(ms.drop_last()) + if ms.last().solved {
            1nat
        } else {
            0nat
        }
    }
}

/// Skipped and not solved.
pub open spec fn count_skipped(ms: Seq<MergedPuzzle>) -> nat
    decreases ms.len(),
{
    if ms.len() == 0 {
        0
    } else {
        count_skipped(ms.drop_last()) + if ms.last().skipped && !ms.last().solved {
            1nat
        } else {
            0nat
        }
    }
}

/// Neither solved nor skipped.
pub open spec fn count_active(ms: Seq<MergedPuzzle>) -> nat
    decreases ms.len(),
{
    if ms.len() == 0 {
        0
    } else {
        count_active(ms.drop_last()) + if !ms.last().solved && !ms.last().skipped {
            1nat
        } else {
            0nat
        }
    }
}

/// Solved with a recorded time.
pub open spec fn count_timed(ms: Seq<MergedPuzzle>) -> nat
    decreases ms.len(),
{
    if ms.len() == 0 {
        0
    } else {
        count_timed(ms.drop_last()) + if ms.last().solved && ms.last().time_seconds is Some {
            1nat
        } else {
            0nat
        }
    }
}

/// The sum of the recorded times of solved puzzles.
pub open spec fn sum_timed(ms: Seq<MergedPuzzle>) -> int
    decreases ms.len(),
{
    if ms.len() == 0 {
        0
    } else {
        sum_timed(ms.drop_last()) + if ms.last().solved && ms.last().time_seconds is Some {
            ms.last().time_seconds->0 as int
        } else {
            0
        }
    }
}

/// Adding up the times in order never leaves the `i64` range.
pub open spec fn timed_sums_fit(ms: Seq<MergedPuzzle>) -> bool {
    forall|k: int| 0 <= k <= ms.len() ==> i64::MIN <= #[trigger] sum_timed(ms.take(k)) <= i64::MAX
}

/// `sum / n` rounded to the nearest integer, halves away from zero.
pub open spec fn rounded_average(sum: int, n: int) -> int {
    if sum >= 0 {
        (2 * sum + n) / (2 * n)
    } else {
        -((-2 * sum + n) / (2 * n))
    }
}

pub proof fn lemma_partition_counts(ms: Seq<MergedPuzzle>)
    ensures
        count_solved(ms) + count_skipped(ms) + count_active(ms) == ms.len(),
        count_timed(ms) <= count_solved(ms),
    decreases ms.len(),
{
    if ms.len() > 0 {
        lemma_partition_counts(ms.drop_last());
    }
}

/// Whether the times to average can be added up without overflow, which `compute_stats`
/// requires.
pub fn timed_sum_fits(merged: &[MergedPuzzle]) -> (b: bool)
    ensures
        b == timed_sums_fit(merged@),
{
    let mut sum: i128 = 0;
    let mut i: usize = 0;
    assert(merged@.take(0) =~= Seq::<MergedPuzzle>::empty());
    while i < merged.len()
        invariant
            i <= merged.len(),
            sum == sum_timed(merged@.take(i as int)),
            forall|k: int| 0 <= k <= i ==> i64::MIN <= #[trigger] sum_timed(merged@.take(k)) <= i64::MAX,
        decreases merged.len() - i,
    {
        assert(merged@.take(i + 1).drop_last() == merged@.take(i as int));
        let p = &merged[i];
        if p.solved {
            if let Some(t) = p.time_seconds {
                sum = sum + t as i128;
            }
        }
        i += 1;
        assert(sum == sum_timed(merged@.take(i as int)));
        if sum < i64::MIN as i128 || sum > i64::MAX as i128 {
            assert(!(i64::MIN <= sum_timed(merged@.take(i as int)) <= i64::MAX));
            return false;
        }
    }
    assert(merged@.take(merged.len() as int) == merged@);
    true
}

/// Counts of solved, skipped-only and active puzzles, and the rounded average time of the
/// solved puzzles that have one.
pub fn compute_stats(merged: &[MergedPuzzle]) -> (r: Stats)
    requires
        timed_sums_fit(merged@),
    ensures
        r.total_puzzles == merged.len(),
        r.solved_count == count_solved(merged@),
        r.skipped_count == count_skipped(merged@),
        r.active_remaining == count_active(merged@),
        r.timed_count == count_timed(merged@),
        r.timed_count > 0 ==> r.average_seconds == Some(
            rounded_average(sum_timed(merged@), count_timed(merged@) as int) as i64,
        ) && r.average_formatted@ == format_seconds_spec(
            rounded_average(sum_timed(merged@), count_timed(merged@) as int),
        ),
        r.timed_count == 0 ==> r.average_seconds is None && r.average_formatted@ == Seq::<char>::empty(),
        r.solved_count + r.skipped_count + r.active_remaining == r.total_puzzles,
        r.timed_count <= r.solved_count,
{
    let mut solved: usize = 0;
    let mut skipped: usize = 0;
    let mut active: usize = 0;
    let mut timed: usize = 0;
    let mut sum: i64 = 0;
    let mut i: usize = 0;
    proof {
        lemma_partition_counts(merged@);
    }
    assert(merged@.take(0) =~= Seq::<MergedPuzzle>::empty());
    while i < merged.len()
        invariant
            i <= merged.len(),
            timed_sums_fit(merged@),
            solved == count_solved(merged@.take(i as int)),
            skipped == count_skipped(merged@.take(i as int)),
            active == count_active(merged@.take(i as int)),
            timed == count_timed(merged@.take(i as int)),
            sum == sum_timed(merged@.take(i as int)),
        decreases merged.len() - i,
    {
        let ghost pre = merged@.take(i as int);
        assert(merged@.take(i + 1).drop_last() == pre);
        proof {
            lemma_partition_counts(pre);
        }
        assert(sum_timed(merged@.take(i + 1)) <= i64::MAX);
        assert(sum_timed(merged@.take(i + 1)) >= i64::MIN);
        let p = &merged[i];
        if p.solved {
            solved += 1;
            if let Some(t) = p.time_seconds {
                timed += 1;
                sum = sum + t;
            }
        } else if p.skipped {
            skipped += 1;
        } else {
            active += 1;
        }
        i += 1;
    }
    assert(merged@.take(merged.len() as int) == merged@);
    let (average_seconds, average_formatted) = if timed > 0 {
        let s = sum as i128;
        let n = timed as i128;
        let a: i128 = if s >= 0 {
            assert((2 * s + n) / (2 * n) <= s) by (nonlinear_arith)
                requires
                    s >= 0,
                    n >= 1,
            ;
            assert((2 * s + n) / (2 * n) >= 0) by (nonlinear_arith)
                requires
                    s >= 0,
                    n >= 1,
            ;
            (2 * s + n) / (2 * n)
        } else {
            assert((-2 * s + n) / (2 * n) <= -s) by (nonlinear_arith)
                requires
                    s < 0,
                    n >= 1,
            ;
            assert((-2 * s + n) / (2 * n) >= 0) by (nonlinear_arith)
                requires
                    s < 0,
                    n >= 1,
            ;
            -((-2 * s + n) / (2 * n))
        };
        let a64 = a as i64;
        (Some(a64), format_seconds(a64))
    } else {
        (None, String::new())
    };
    Stats {
        total_puzzles: merged.len(),
        solved_count: solved,
        skipped_count: skipped,
        active_remaining: active,
        average_seconds,
        average_formatted,
        timed_count: timed,
    }
}

} // verus!

verus! {

/// The key under which constraint texts count as the same: trimmed, runs of white space
/// made single spaces, lowercased.
pub open spec fn constraint_key(s: Seq<char>) -> Seq<char> {
    lower_text(collapse_ws(trim(s)))
}

/// Normalizes a constraint text for comparison: trimmed, single-spaced, lowercased.
pub fn normalize_constraint_key(s: &str) -> (r: String)
    ensures
        r@ == constraint_key(s@),
{
    let t = trim_chars(&chars_of(s));
    let c = collapse_ws_chars(&t);
    str_to_lowercase(string_of(&c).as_str())
}

/// Each piece trimmed and single-spaced.
pub open spec fn collapse_each(ss: Seq<Seq<char>>) -> Seq<Seq<char>>
    decreases ss.len(),
{
    if ss.len() == 0 {
        ss
    } else {
        collapse_each(ss.drop_last()).push(collapse_ws(trim(ss.last())))
    }
}

/// The constraints of one puzzle text: comma-separated, trimmed, single-spaced, non-empty.
pub open spec fn constraint_parts(c: Seq<char>) -> Seq<Seq<char>> {
    nonempty_only(collapse_each(split_on(c, ',', ',')))
}

/// The constraints of all puzzles, in order.
pub open spec fn all_constraint_parts(ms: Seq<MergedPuzzle>) -> Seq<Seq<char>>
    decreases ms.len(),
{
    if ms.len() == 0 {
        Seq::empty()
    } else {
        all_constraint_parts(ms.drop_last()) + constraint_parts(ms.last().base.constraints@)
    }
}

/// The key of each constraint.
pub open spec fn keys_of(ps: Seq<Seq<char>>) -> Seq<Seq<char>>
    decreases ps.len(),
{
    if ps.len() == 0 {
        ps
    } else {
        keys_of(ps.drop_last()).push(constraint_key(ps.last()))
    }
}

/// The first constraint of each key, in order of first appearance.
pub open spec fn first_of_each_key(ps: Seq<Seq<char>>, keys: Seq<Seq<char>>) -> Seq<Seq<char>>
    decreases ps.len(),
{
    if ps.len() == 0 {
        ps
    } else {
        let r = first_of_each_key(ps.drop_last(), keys.take(ps.len() - 1));
        if keys.take(ps.len() - 1).contains(keys[ps.len() - 1]) {
            r
        } else {
            r.push(ps.last())
        }
    }
}

fn parts_of_text(c: &str) -> (r: Vec<String>)
    ensures
        r.deep_view() == constraint_parts(c@),
{
    let v = chars_of(c);
    let pieces = split_chars(&v, ',', ',');
    let ghost pv = pieces.deep_view();
    let mut out: Vec<String> = Vec::new();
    let mut i: usize = 0;
    assert(pv.take(0) =~= Seq::<Seq<char>>::empty());
    while i < pieces.len()
        invariant
            i <= pieces.len(),
            pv == pieces.deep_view(),
            out.deep_view() == nonempty_only(collapse_each(pv.take(i as int))),
        decreases pieces.len() - i,
    {
        assert(pv.take(i + 1).drop_last() == pv.take(i as int));
        assert(pv[i as int] == pieces@[i as int]@);
        let t = collapse_ws_chars(&trim_chars(&pieces[i]));
        let ghost tt = collapse_each(pv.take(i + 1));
        assert(tt.drop_last() == collapse_each(pv.take(i as int)));
        assert(tt.last() == t@);
        if t.len() > 0 {
            push_string(&mut out, string_of(&t));
        }
        i += 1;
    }
    assert(pv.take(pieces.len() as int) == pv);
    out
}

fn all_parts(merged: &[MergedPuzzle]) -> (r: Vec<String>)
    ensures
        r.deep_view() == all_constraint_parts(merged@),
{
    let mut out: Vec<String> = Vec::new();
    let mut i: usize = 0;
    assert(merged@.take(0) =~= Seq::<MergedPuzzle>::empty());
    while i < merged.len()
        invariant
            i <= merged.len(),
            out.deep_view() == all_constraint_parts(merged@.take(i as int)),
        decreases merged.len() - i,
    {
        assert(merged@.take(i + 1).drop_last() == merged@.take(i as int));
        let ps = parts_of_text(merged[i].base.constraints.as_str());
        let ghost before = out.deep_view();
        let mut k: usize = 0;
        while k < ps.len()
            invariant
                k <= ps.len(),
                out.deep_view() == before + ps.deep_view().take(k as int),
            decreases ps.len() - k,
        {
            push_string(&mut out, ps[k].clone());
            assert(ps.deep_view().take(k + 1) == ps.deep_view().take(k as int).push(ps@[k as int]@));
            k += 1;
        }
        assert(ps.deep_view().take(k as int) == ps.deep_view());
        i += 1;
    }
    assert(merged@.take(merged.len() as int) == merged@);
    out
}

/// The first of the given texts for each key, in order of first appearance
/// (`keys[i]` is the key of `parts[i]`); each key is looked up among the earlier keys.
pub fn first_by_key(parts: &Vec<String>, keys: &Vec<String>) -> (r: Vec<String>)
    requires
        parts.len() == keys.len(),
    ensures
        r.deep_view() == first_of_each_key(parts.deep_view(), keys.deep_view()),
{
    let ghost pv = parts.deep_view();
    let ghost kv = keys.deep_view();
    let mut out: Vec<String> = Vec::new();
    let mut i: usize = 0;
    assert(pv.take(0) =~= Seq::<Seq<char>>::empty());
    while i < parts.len()
        invariant
            i <= parts.len() == keys.len(),
            pv == parts.deep_view(),
            kv == keys.deep_view(),
            out.deep_view() == first_of_each_key(pv.take(i as int), kv.take(i as int)),
        decreases parts.len() - i,
    {
        let ghost p1 = pv.take(i + 1);
        let ghost k1 = kv.take(i + 1);
        assert(p1.drop_last() == pv.take(i as int));
        assert(k1.take(i as int) == kv.take(i as int));
        assert(k1[i as int] == keys@[i as int]@);
        assert(p1.last() == parts@[i as int]@);
        let key = chars_of(keys[i].as_str());
        let mut seen = false;
        let mut j: usize = 0;
        while j < i
            invariant
                j <= i < keys.len(),
                kv == keys.deep_view(),
                key@ == kv[i as int],
                seen == kv.take(j as int).contains(kv[i as int]),
            decreases i - j,
        {
            let kj = chars_of(keys[j].as_str());
            assert(kv[j as int] == keys@[j as int]@);
            assert(kv.take(j + 1) == kv.take(j as int).push(kv[j as int]));
            assert(kv.take(j + 1).contains(kv[i as int]) == (kv.take(j as int).contains(kv[i as int])
                || kv[j as int] == kv[i as int])) by {
                if kv.take(j + 1).contains(kv[i as int]) {
                    let w = choose|w: int| 0 <= w < kv.take(j + 1).len() && #[trigger] kv.take(j + 1)[w] == kv[i as int];
                    if w < j {
                        assert(kv.take(j as int)[w] == kv[i as int]);
                    }
                }
                if kv.take(j as int).contains(kv[i as int]) {
                    let w = choose|w: int| 0 <= w < kv.take(j as int).len() && #[trigger] kv.take(j as int)[w] == kv[i as int];
                    assert(kv.take(j + 1)[w] == kv[i as int]);
                }
                if kv[j as int] == kv[i as int] {
                    assert(kv.take(j + 1)[j as int] == kv[i as int]);
                }
            }
            if eq_chars(&kj, &key) {
                seen = true;
            }
            j += 1;
        }
        if !seen {
            push_string(&mut out, parts[i].clone());
        }
        i += 1;
    }
    assert(pv.take(parts.len() as int) == pv);
    assert(kv.take(keys.len() as int) == kv);
    out
}

} // verus!

verus! {

pub proof fn lemma_lower_each_index(ts: Seq<Seq<char>>)
    ensures
        lower_each(ts).len() == ts.len(),
        forall|i: int| 0 <= i < ts.len() ==> #[trigger] lower_each(ts)[i] == lower_text(ts[i]),
    decreases ts.len(),
{
    if ts.len() > 0 {
        lemma_lower_each_index(ts.drop_last());
    }
}

pub proof fn lemma_keys_of_index(ps: Seq<Seq<char>>)
    ensures
        keys_of(ps).len() == ps.len(),
        forall|i: int| 0 <= i < ps.len() ==> #[trigger] keys_of(ps)[i] == constraint_key(ps[i]),
    decreases ps.len(),
{
    if ps.len() > 0 {
        lemma_keys_of_index(ps.drop_last());
    }
}

/// `v` with key `k` is one of the given texts with its key.
pub open spec fn is_pair_of(items: Seq<Seq<char>>, keys: Seq<Seq<char>>, v: Seq<char>, k: Seq<char>) -> bool {
    exists|j: int| 0 <= j < items.len() && items[j] == v && keys[j] == k
}

/// Sorts texts lexicographically by their keys (`keys[i]` belongs to `items[i]`); returns
/// the texts and their keys in the new order.
pub fn sort_by_keys(items: &Vec<String>, keys: &Vec<String>) -> (r: (Vec<String>, Vec<String>))
    requires
        items.len() == keys.len(),
    ensures
        r.0.len() == items.len(),
        r.1.len() == items.len(),
        r.0.deep_view().to_multiset() == items.deep_view().to_multiset(),
        forall|i: int|
            0 <= i < r.0.len() ==> is_pair_of(
                items.deep_view(),
                keys.deep_view(),
                #[trigger] r.0.deep_view()[i],
                r.1.deep_view()[i],
            ),
        forall|i: int, j: int|
            0 <= i < j < r.1.len() ==> lex_le(r.1.deep_view()[i], r.1.deep_view()[j]),
{
    let ghost iv = items.deep_view();
    let ghost kv = keys.deep_view();
    let mut vals: Vec<String> = Vec::new();
    let mut ks: Vec<String> = Vec::new();
    let mut i: usize = 0;
    assert(iv.take(0) =~= Seq::<Seq<char>>::empty());
    assert(vals.deep_view() =~= iv.take(0));
    while i < items.len()
        invariant
            i <= items.len() == keys.len(),
            iv == items.deep_view(),
            kv == keys.deep_view(),
            vals.len() == i,
            ks.len() == i,
            vals.deep_view().to_multiset() == iv.take(i as int).to_multiset(),
            forall|a: int|
                0 <= a < vals.len() ==> is_pair_of(iv, kv, #[trigger] vals.deep_view()[a], ks.deep_view()[a]),
            forall|a: int, b: int|
                0 <= a < b < ks.len() ==> lex_le(ks.deep_view()[a], ks.deep_view()[b]),
        decreases items.len() - i,
    {
        let x = items[i].clone();
        let xk = keys[i].clone();
        let xkc = chars_of(xk.as_str());
        let mut pos: usize = 0;
        while pos < ks.len() && !lex_lt_chars(&xkc, &chars_of(ks[pos].as_str()))
            invariant
                pos <= ks.len(),
                xkc@ == xk@,
                forall|a: int| 0 <= a < pos ==> !lex_lt(xk@, #[trigger] ks.deep_view()[a]),
            decreases ks.len() - pos,
        {
            assert(ks.deep_view()[pos as int] == ks@[pos as int]@);
            pos += 1;
        }
        if pos < ks.len() {
            assert(ks.deep_view()[pos as int] == ks@[pos as int]@);
        }
        let ghost old_vdv = vals.deep_view();
        let ghost old_ks = ks.deep_view();
        let ghost xv = x@;
        let ghost xkv = xk@;
        assert(xv == iv[i as int]);
        assert(xkv == kv[i as int]);
        insert_string(&mut vals, pos, x);
        insert_string(&mut ks, pos, xk);
        proof {
            let nv = vals.deep_view();
            let nk = ks.deep_view();
            vstd::seq_lib::to_multiset_insert(old_vdv, pos as int, xv);
            assert(iv.take(i + 1) == iv.take(i as int).push(xv));
            vstd::seq_lib::to_multiset_build(iv.take(i as int), xv);
            assert forall|a: int|
                0 <= a < vals.len() implies is_pair_of(iv, kv, #[trigger] nv[a], nk[a]) by {
                if a < pos {
                    assert(nv[a] == old_vdv[a]);
                    assert(nk[a] == old_ks[a]);
                } else if a == pos {
                    assert(iv[i as int] == nv[a]);
                    assert(kv[i as int] == nk[a]);
                } else {
                    assert(nv[a] == old_vdv[a - 1]);
                    assert(nk[a] == old_ks[a - 1]);
                }
            }
            assert forall|a: int, b: int| 0 <= a < b < ks.len() implies lex_le(nk[a], nk[b]) by {
                assert(nk == old_ks.insert(pos as int, xkv));
                if b < pos {
                    assert(nk[a] == old_ks[a] && nk[b] == old_ks[b]);
                    assert(lex_le(nk[a], nk[b]));
                } else if b == pos {
                    assert(nk[a] == old_ks[a]);
                    assert(nk[b] == xkv);
                    assert(!lex_lt(xkv, old_ks[a]));
                    assert(lex_le(nk[a], nk[b]));
                } else if a < pos {
                    assert(nk[a] == old_ks[a] && nk[b] == old_ks[b - 1]);
                    assert(lex_le(nk[a], nk[b]));
                } else if a == pos {
                    assert(nk[b] == old_ks[b - 1]);
                    assert(nk[a] == xkv);
                    assert(lex_lt(xkv, old_ks[pos as int]));
                    if pos < b - 1 {
                        assert(lex_le(old_ks[pos as int], old_ks[b - 1]));
                    }
                    if lex_lt(old_ks[b - 1], xkv) {
                        lemma_lex_lt_trans(old_ks[b - 1], xkv, old_ks[pos as int]);
                        lemma_lex_lt_irrefl(old_ks[pos as int]);
                    }
                    assert(lex_le(nk[a], nk[b]));
                } else {
                    assert(nk[a] == old_ks[a - 1] && nk[b] == old_ks[b - 1]);
                    assert(lex_le(nk[a], nk[b]));
                }
            }
        }
        i += 1;
    }
    assert(iv.take(items.len() as int) == iv);
    (vals, ks)
}

/// The distinct constraints of all puzzles: the first text of each key, ordered by their
/// lowercase text (texts whose lowercase forms are equal may come in either order).
pub fn unique_constraints(merged: &[MergedPuzzle]) -> (r: Vec<String>)
    ensures
        r.deep_view().to_multiset() == first_of_each_key(
            all_constraint_parts(merged@),
            keys_of(all_constraint_parts(merged@)),
        ).to_multiset(),
        forall|i: int, j: int| 0 <= i < j < r.len() ==> lex_le(lower_text(r@[i]@), lower_text(r@[j]@)),
        forall|i: int, j: int|
            0 <= i < j < r.len() ==> constraint_key(#[trigger] r@[i]@) != constraint_key(#[trigger] r@[j]@),
        forall|i: int|
            0 <= i < all_constraint_parts(merged@).len() ==> exists|j: int|
                0 <= j < r.len() && constraint_key(#[trigger] r@[j]@) == constraint_key(
                    #[trigger] all_constraint_parts(merged@)[i],
                ),
{
    let parts = all_parts(merged);
    let ghost pv = parts.deep_view();
    let mut keys: Vec<String> = Vec::new();
    let mut i: usize = 0;
    assert(pv.take(0) =~= Seq::<Seq<char>>::empty());
    while i < parts.len()
        invariant
            i <= parts.len(),
            pv == parts.deep_view(),
            keys.len() == i,
            keys.deep_view() == keys_of(pv.take(i as int)),
        decreases parts.len() - i,
    {
        assert(pv.take(i + 1).drop_last() == pv.take(i as int));
        assert(pv[i as int] == parts@[i as int]@);
        push_string(&mut keys, normalize_constraint_key(parts[i].as_str()));
        i += 1;
    }
    assert(pv.take(parts.len() as int) == pv);
    let reps = first_by_key(&parts, &keys);
    let lowered = lower_all(&reps);
    proof {
        lemma_lower_each_index(reps.deep_view());
    }
    assert(lowered.len() == reps.len()) by {
        assert(lowered.deep_view().len() == lowered.len());
    }
    let (sorted, sorted_keys) = sort_by_keys(&reps, &lowered);
    let ghost sd = sorted.deep_view();
    let ghost skd = sorted_keys.deep_view();
    assert forall|a: int| 0 <= a < sorted.len() implies skd[a] == lower_text(#[trigger] sd[a]) by {
        let j = choose|j: int|
            0 <= j < reps.deep_view().len() && reps.deep_view()[j] == sd[a] && lowered.deep_view()[j] == skd[a];
    }
    assert forall|i: int, j: int| 0 <= i < j < sorted.len() implies lex_le(lower_text(sorted@[i]@), lower_text(sorted@[j]@)) by {
        assert(sd[i] == sorted@[i]@ && sd[j] == sorted@[j]@);
    }
    proof {
        crate::progress_laws::law_unique_constraints_any_order(sd, pv);
        assert forall|i: int| 0 <= i < sorted.len() implies #[trigger] sorted@[i]@ == sd[i] by {}
    }
    sorted
}

} // verus!

verus! {

/// The texts that count as "solved" once uppercased.
pub open spec fn is_true_text(v: Seq<char>) -> bool {
    v == "TRUE"@ || v == "1"@ || v == "YES"@
}

/// The text of the `Solved` column, trimmed and uppercased (empty when the column is missing).
pub open spec fn solved_text(f: Seq<(Seq<char>, Seq<char>)>) -> Seq<char> {
    match row_get(f, "Solved"@) {
        Some(s) => upper_text(trim(s)),
        None => Seq::empty(),
    }
}

/// Whether an uppercased text says "solved": `TRUE`, `1` or `YES`.
pub fn is_true_upper(v: &str) -> (b: bool)
    ensures
        b == is_true_text(v@),
        b == (v@ == "TRUE"@ || v@ == "1"@ || v@ == "YES"@),
{
    let c = chars_of(v);
    eq_chars(&c, &chars_of("TRUE")) || eq_chars(&c, &chars_of("1")) || eq_chars(&c, &chars_of("YES"))
}

/// Whether an imported row is marked solved: its `Solved` column, trimmed and uppercased,
/// is `TRUE`, `1` or `YES`.
pub fn parse_solved_from_import(row: &CsvRow) -> (b: bool)
    ensures
        b == is_true_text(solved_text(row@)),
        b == (solved_text(row@) == "TRUE"@ || solved_text(row@) == "1"@ || solved_text(row@) == "YES"@),
{
    match row.get("Solved") {
        Some(s) => {
            let t = trim_str(s.as_str());
            let u = str_to_uppercase(t.as_str());
            assert(u@ == solved_text(row@));
            is_true_upper(u.as_str())
        },
        None => {
            proof {
                reveal_strlit("TRUE");
                reveal_strlit("1");
                reveal_strlit("YES");
            }
            assert(solved_text(row@) == Seq::<char>::empty());
            assert(!is_true_text(Seq::<char>::empty()));
            false
        },
    }
}

/// The trimmed field under `k`, when it is not empty.
pub open spec fn named_time(f: Seq<(Seq<char>, Seq<char>)>, k: Seq<char>) -> Option<Seq<char>> {
    match row_get(f, k) {
        Some(v) => if trim(v).len() > 0 {
            Some(trim(v))
        } else {
            None
        },
        None => None,
    }
}

/// From position `i` on, the first field whose lowered header starts with `time` and whose
/// trimmed text is not empty, trimmed (`lowered[j]` is the lowered header of field `j`).
pub open spec fn time_field_from(
    f: Seq<(Seq<char>, Seq<char>)>,
    lowered: Seq<Seq<char>>,
    i: int,
) -> Option<Seq<char>>
    decreases f.len() - i,
{
    if i < 0 || i >= f.len() {
        None
    } else if starts_with(lowered[i], "time"@) && trim(f[i].1).len() > 0 {
        Some(trim(f[i].1))
    } else {
        time_field_from(f, lowered, i + 1)
    }
}

/// The time text of an imported row: the columns `Time (Include Hour, like 0:04:50)`, `Time`
/// and `Time ` in that order, then any column whose header starts with `time` (any case),
/// the first with a non-empty trimmed text; else the empty text.
pub open spec fn time_text_with(f: Seq<(Seq<char>, Seq<char>)>, lowered: Seq<Seq<char>>) -> Seq<char> {
    match named_time(f, "Time (Include Hour, like 0:04:50)"@) {
        Some(t) => t,
        None => match named_time(f, "Time"@) {
            Some(t) => t,
            None => match named_time(f, "Time "@) {
                Some(t) => t,
                None => match time_field_from(f, lowered, 0) {
                    Some(t) => t,
                    None => Seq::empty(),
                },
            },
        },
    }
}

/// Each header trimmed and lowercased.
pub open spec fn lowered_headers(f: Seq<(Seq<char>, Seq<char>)>) -> Seq<Seq<char>>
    decreases f.len(),
{
    if f.len() == 0 {
        Seq::empty()
    } else {
        lowered_headers(f.drop_last()).push(lower_text(trim(f.last().0)))
    }
}

fn named_time_exec(row: &CsvRow, k: &str) -> (r: Option<String>)
    ensures
        r.deep_view() == named_time(row@, k@),
{
    match row.get(k) {
        Some(v) => {
            let t = trim_str(v.as_str());
            if t.as_str().is_empty() {
                None
            } else {
                Some(t)
            }
        },
        None => None,
    }
}

/// The time text of an imported row, given each header trimmed and lowercased.
pub fn time_string_with_headers(row: &CsvRow, lowered: &Vec<String>) -> (r: String)
    requires
        lowered.len() == row@.len(),
    ensures
        r@ == time_text_with(row@, lowered.deep_view()),
{
    if let Some(t) = named_time_exec(row, "Time (Include Hour, like 0:04:50)") {
        return t;
    }
    if let Some(t) = named_time_exec(row, "Time") {
        return t;
    }
    if let Some(t) = named_time_exec(row, "Time ") {
        return t;
    }
    let ghost lv = lowered.deep_view();
    let time = chars_of("time");
    let mut i: usize = 0;
    while i < row.len()
        invariant
            i <= row@.len() == lowered.len(),
            lv == lowered.deep_view(),
            time@ == "time"@,
            time_field_from(row@, lv, 0) == time_field_from(row@, lv, i as int),
            named_time(row@, "Time (Include Hour, like 0:04:50)"@) is None,
            named_time(row@, "Time"@) is None,
            named_time(row@, "Time "@) is None,
        decreases row@.len() - i,
    {
        let (_k, v) = row.field_at(i);
        let lk = chars_of(lowered[i].as_str());
        assert(lv[i as int] == lowered@[i as int]@);
        if starts_with_chars(&lk, &time) {
            let t = trim_str(v.as_str());
            if !t.as_str().is_empty() {
                return t;
            }
        }
        i += 1;
    }
    String::new()
}

/// The time text of an imported row: the columns `Time (Include Hour, like 0:04:50)`, `Time`
/// and `Time ` in that order, then the other columns in order whose trimmed header starts
/// with `time` in lowercase; the first non-empty trimmed text, else the empty text.
pub fn get_time_string_from_import_row(row: &CsvRow) -> (r: String)
    ensures
        r@ == time_text_with(row@, lowered_headers(row@)),
{
    let mut lowered: Vec<String> = Vec::new();
    let mut i: usize = 0;
    assert(row@.take(0) =~= Seq::<(Seq<char>, Seq<char>)>::empty());
    while i < row.len()
        invariant
            i <= row@.len(),
            lowered.len() == i,
            lowered.deep_view() == lowered_headers(row@.take(i as int)),
        decreases row@.len() - i,
    {
        let (k, _v) = row.field_at(i);
        assert(row@.take(i + 1).drop_last() == row@.take(i as int));
        let t = trim_str(k.as_str());
        push_string(&mut lowered, str_to_lowercase(t.as_str()));
        i += 1;
    }
    assert(row@.take(row@.len() as int) == row@);
    time_string_with_headers(row, &lowered)
}

} // verus!

verus! {

/// A character that ends a sheet id in a link: `/`, `?`, `#` or `&`.
pub open spec fn is_id_stop(c: char) -> bool {
    c == '/' || c == '?' || c == '#' || c == '&'
}

/// A character a sheet id may hold: an ASCII letter or digit, `-` or `_`.
pub open spec fn is_id_char(c: char) -> bool {
    let u = c as u32;
    (48 <= u <= 57) || (65 <= u <= 90) || (97 <= u <= 122) || c == '-' || c == '_'
}

/// The position of the first id-ending character at or after `i`, or the length.
pub open spec fn stop_from(s: Seq<char>, i: int) -> int
    decreases s.len() - i,
{
    if i < 0 || i >= s.len() {
        s.len() as int
    } else if is_id_stop(s[i]) {
        i
    } else {
        stop_from(s, i + 1)
    }
}

/// The sheet id in a Google Sheets link: what follows the first `/spreadsheets/d/` up to
/// the next `/`, `?`, `#` or `&`; it must be non-empty and made of ASCII letters, digits,
/// `-` and `_`.
pub open spec fn sheet_id(s: Seq<char>) -> Option<Seq<char>> {
    match first_occurrence(s, "/spreadsheets/d/"@) {
        None => None,
        Some(i) => {
            let rest = s.skip(i + "/spreadsheets/d/"@.len());
            let id = rest.take(stop_from(rest, 0));
            if id.len() == 0 {
                None
            } else if exists|j: int| 0 <= j < id.len() && !is_id_char(#[trigger] id[j]) {
                None
            } else {
                Some(id)
            }
        },
    }
}

pub proof fn lemma_stop_from_bounds(s: Seq<char>, i: int)
    requires
        0 <= i <= s.len(),
    ensures
        i <= stop_from(s, i) <= s.len(),
    decreases s.len() - i,
{
    if i < s.len() && !is_id_stop(s[i]) {
        lemma_stop_from_bounds(s, i + 1);
    }
}

fn is_id_char_exec(c: char) -> (b: bool)
    ensures
        b == is_id_char(c),
{
    let u = c as u32;
    (48 <= u && u <= 57) || (65 <= u && u <= 90) || (97 <= u && u <= 122) || c == '-' || c == '_'
}

fn all_id_chars(id: &Vec<char>) -> (b: bool)
    ensures
        b == !exists|j: int| 0 <= j < id@.len() && !is_id_char(#[trigger] id@[j]),
{
    let mut k: usize = 0;
    while k < id.len()
        invariant
            k <= id.len(),
            forall|j: int| 0 <= j < k ==> is_id_char(#[trigger] id@[j]),
        decreases id.len() - k,
    {
        if !is_id_char_exec(id[k]) {
            assert(!is_id_char(id@[k as int]));
            return false;
        }
        k += 1;
    }
    true
}

/// Takes the sheet id out of a Google Sheets link.
pub fn extract_sheet_id(trimmed: &str) -> (r: Option<String>)
    ensures
        r.deep_view() == sheet_id(trimmed@),
{
    let s = chars_of(trimmed);
    let needle = chars_of("/spreadsheets/d/");
    let i = match find_chars(&s, &needle) {
        Some(i) => i,
        None => return None,
    };
    assert(occurs_at(s@, needle@, i as int));
    assert(s@.len() == s.len() && needle@.len() == needle.len());
    let start = i + needle.len();
    let rest = slice_chars(&s, start, s.len());
    assert(rest@ == s@.skip(start as int));
    let mut end: usize = 0;
    assert(rest@.skip(0) == rest@);
    while end < rest.len() && !(rest[end] == '/' || rest[end] == '?' || rest[end] == '#' || rest[end] == '&')
        invariant
            end <= rest.len(),
            stop_from(rest@, 0) == stop_from(rest@, end as int),
        decreases rest.len() - end,
    {
        end += 1;
    }
    let id = slice_chars(&rest, 0, end);
    assert(id@ == rest@.take(stop_from(rest@, 0)));
    if id.len() == 0 {
        return None;
    }
    if !all_id_chars(&id) {
        return None;
    }
    Some(string_of(&id))
}

} // verus!

verus! {

/// A lowercased link that already asks for a CSV export.
pub open spec fn is_export_link(lower: Seq<char>) -> bool {
    contains(lower, "/export"@) && (contains(lower, "format=csv"@) || contains(lower, "format%3dcsv"@))
}

/// The value of the first query pair named `k`.
pub open spec fn first_value_of(pairs: Seq<(Seq<char>, Seq<char>)>, k: Seq<char>) -> Option<Seq<char>>
    decreases pairs.len(),
{
    if pairs.len() == 0 {
        None
    } else if pairs[0].0 == k {
        Some(pairs[0].1)
    } else {
        first_value_of(pairs.drop_first(), k)
    }
}

/// The digits after `gid=` in the first fragment part that is `gid=` and digits.
pub open spec fn first_fragment_gid(parts: Seq<Seq<char>>) -> Option<Seq<char>>
    decreases parts.len(),
{
    if parts.len() == 0 {
        None
    } else if starts_with(parts[0], "gid="@) && all_digits(parts[0].skip(4)) {
        Some(parts[0].skip(4))
    } else {
        first_fragment_gid(parts.drop_first())
    }
}

/// The tab id of a sheet link: a digits-only `gid` query value, else `0`; when that is
/// `0`, a `gid=` part of the fragment takes its place.
pub open spec fn gid_of(u: UrlInfoView) -> Seq<char> {
    let q = match first_value_of(u.query, "gid"@) {
        Some(v) => if all_digits(v) {
            v
        } else {
            "0"@
        },
        None => "0"@,
    };
    match u.fragment {
        Some(f) => match first_fragment_gid(split_on(f, '&', '&')) {
            Some(m) => if q == "0"@ {
                m
            } else {
                q
            },
            None => q,
        },
        None => q,
    }
}

/// The CSV export address of a sheet tab.
pub open spec fn export_link(id: Seq<char>, gid: Seq<char>) -> Seq<char> {
    "https://docs.google.com/spreadsheets/d/"@ + id + "/export?format=csv&gid="@ + gid
}

/// The address to download for an import link, from the trimmed link, its lowercase form,
/// its parse and its parse without fragment: an export link loses its fragment; a
/// `docs.google.com` sheet link becomes the export of its tab; anything else stays.
pub open spec fn resolved_link(
    t: Seq<char>,
    lower: Seq<char>,
    parsed: Option<UrlInfoView>,
    defragmented: Option<Seq<char>>,
) -> Seq<char> {
    if is_export_link(lower) {
        match defragmented {
            Some(u) => u,
            None => t,
        }
    } else {
        match sheet_id(t) {
            None => t,
            Some(id) => match parsed {
                None => t,
                Some(u) => if u.host == Some("docs.google.com"@) {
                    export_link(id, gid_of(u))
                } else {
                    t
                },
            },
        }
    }
}

/// The CSV export address of a sheet tab.
pub fn sheet_export_url(id: &str, gid: &str) -> (r: String)
    ensures
        r@ == export_link(id@, gid@),
{
    let mut s = "https://docs.google.com/spreadsheets/d/".to_owned();
    s.append(id);
    s.append("/export?format=csv&gid=");
    s.append(gid);
    s
}

fn first_value_exec(pairs: &Vec<(String, String)>, k: &str) -> (r: Option<String>)
    ensures
        r.deep_view() == first_value_of(pairs.deep_view(), k@),
{
    let ghost pv = pairs.deep_view();
    let kc = chars_of(k);
    let mut i: usize = 0;
    assert(pv.skip(0) == pv);
    while i < pairs.len()
        invariant
            i <= pairs.len(),
            pv == pairs.deep_view(),
            kc@ == k@,
            first_value_of(pv, k@) == first_value_of(pv.skip(i as int), k@),
        decreases pairs.len() - i,
    {
        assert(pv[i as int] == pairs@[i as int].deep_view());
        assert(pv.skip(i as int)[0] == pv[i as int]);
        assert(pv.skip(i as int).drop_first() == pv.skip(i + 1));
        if eq_chars(&chars_of(pairs[i].0.as_str()), &kc) {
            return Some(pairs[i].1.clone());
        }
        i += 1;
    }
    None
}

fn first_fragment_gid_exec(f: &str) -> (r: Option<String>)
    ensures
        r.deep_view() == first_fragment_gid(split_on(f@, '&', '&')),
{
    let parts = split_chars(&chars_of(f), '&', '&');
    let ghost pv = parts.deep_view();
    let prefix = chars_of("gid=");
    proof {
        reveal_strlit("gid=");
    }
    let mut i: usize = 0;
    assert(pv.skip(0) == pv);
    while i < parts.len()
        invariant
            i <= parts.len(),
            pv == parts.deep_view(),
            prefix@ == "gid="@,
            prefix@.len() == 4,
            pv == split_on(f@, '&', '&'),
            first_fragment_gid(pv) == first_fragment_gid(pv.skip(i as int)),
        decreases parts.len() - i,
    {
        assert(pv[i as int] == parts@[i as int]@);
        assert(pv.skip(i as int)[0] == pv[i as int]);
        assert(pv.skip(i as int).drop_first() == pv.skip(i + 1));
        if starts_with_chars(&parts[i], &prefix) {
            let rest = slice_chars(&parts[i], 4, parts[i].len());
            assert(rest@ == pv[i as int].skip(4));
            if all_digit_chars(&rest) {
                return Some(string_of(&rest));
            }
        }
        i += 1;
    }
    None
}

fn all_digit_chars(v: &Vec<char>) -> (b: bool)
    ensures
        b == all_digits(v@),
{
    let mut k: usize = 0;
    while k < v.len()
        invariant
            k <= v.len(),
            forall|j: int| 0 <= j < k ==> is_digit(#[trigger] v@[j]),
        decreases v.len() - k,
    {
        if !is_digit_char(v[k]) {
            return false;
        }
        k += 1;
    }
    true
}

fn gid_exec(u: &UrlInfo) -> (r: String)
    ensures
        r@ == gid_of(u@),
{
    let q = match first_value_exec(&u.query, "gid") {
        Some(v) => if all_digit_chars(&chars_of(v.as_str())) {
            v
        } else {
            "0".to_owned()
        },
        None => "0".to_owned(),
    };
    match &u.fragment {
        Some(f) => match first_fragment_gid_exec(f.as_str()) {
            Some(m) => if eq_chars(&chars_of(q.as_str()), &chars_of("0")) {
                m
            } else {
                q
            },
            None => q,
        },
        None => q,
    }
}

/// The download address for an import link, given the trimmed link, its lowercase form,
/// its parse and its parse without fragment.
pub fn resolve_link_from_parts(
    t: &str,
    lower: &str,
    parsed: &Option<UrlInfo>,
    defragmented: &Option<String>,
) -> (r: String)
    ensures
        r@ == resolved_link(t@, lower@, parsed.deep_view(), defragmented.deep_view()),
{
    let lc = chars_of(lower);
    let is_export = contains_chars(&lc, &chars_of("/export")) && (contains_chars(
        &lc,
        &chars_of("format=csv"),
    ) || contains_chars(&lc, &chars_of("format%3dcsv")));
    if is_export {
        return match defragmented {
            Some(u) => u.clone(),
            None => t.to_owned(),
        };
    }
    let id = match extract_sheet_id(t) {
        Some(id) => id,
        None => return t.to_owned(),
    };
    match parsed {
        None => t.to_owned(),
        Some(u) => {
            let host_ok = match &u.host {
                Some(h) => eq_chars(&chars_of(h.as_str()), &chars_of("docs.google.com")),
                None => false,
            };
            if host_ok {
                let gid = gid_exec(u);
                sheet_export_url(id.as_str(), gid.as_str())
            } else {
                t.to_owned()
            }
        },
    }
}

/// The address to download for an import link: a link that already asks for a CSV export
/// is kept without its fragment; a `docs.google.com` sheet link becomes the CSV export of
/// its tab (`gid` from the query, else from the fragment, else `0`); anything else is kept
/// as given, trimmed.
pub fn resolve_import_csv_url(url_string: &str) -> (r: String)
    ensures
        r@ == resolved_link(
            trim(url_string@),
            lower_text(trim(url_string@)),
            parsed_url(trim(url_string@)),
            url_without_fragment(trim(url_string@)),
        ),
{
    let t = trim_str(url_string);
    let lower = str_to_lowercase(t.as_str());
    let parsed = parse_url(t.as_str());
    let defragmented = strip_url_fragment(t.as_str());
    resolve_link_from_parts(t.as_str(), lower.as_str(), &parsed, &defragmented)
}

} // verus!
