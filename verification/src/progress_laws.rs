//! Properties of progress updates, download candidates, constraint lists and video values.
use vstd::prelude::*;
use crate::laws::{law_time_not_negative, lemma_trim_plain};
use crate::logic::{constraint_key, first_of_each_key, keys_of, lemma_keys_of_index, video_choice};
use crate::models::{FieldValue, MergedPuzzle, ProgressBody, ProgressView};
use crate::service::{base_progress, is_active, progress_time_fits, lemma_without_repeats_contains, progress_result, without_repeats};
use crate::text::{all_ascii, ascii_lower, is_ws, lower_text, trim};

verus! {

/// An accepted update never leaves a puzzle both solved and skipped, when it was not both
/// before.
pub proof fn law_update_not_solved_and_skipped(existing: Option<ProgressView>, body: ProgressBody)
    requires
        !(base_progress(existing).solved && base_progress(existing).skipped),
        progress_result(existing, body) is Ok,
    ensures
        !(progress_result(existing, body)->Ok_0.solved && progress_result(existing, body)->Ok_0.skipped),
{
}

/// Marking a puzzle active, or clearing its status, leaves it neither solved nor skipped.
pub proof fn law_active_clears_status(existing: Option<ProgressView>, body: ProgressBody)
    requires
        body.active == Some(true) || body.clear_status == Some(true),
        progress_result(existing, body) is Ok,
    ensures
        !progress_result(existing, body)->Ok_0.solved,
        !progress_result(existing, body)->Ok_0.skipped,
{
}

/// Marking a puzzle solved (without `active` or `clearStatus`) makes it solved and not
/// skipped, whatever `skipped` says.
pub proof fn law_solved_wins(existing: Option<ProgressView>, body: ProgressBody)
    requires
        body.active != Some(true),
        body.clear_status != Some(true),
        body.solved == Some(true),
        progress_result(existing, body) is Ok,
    ensures
        progress_result(existing, body)->Ok_0.solved,
        !progress_result(existing, body)->Ok_0.skipped,
{
}

/// Marking a puzzle skipped (without `active`, `clearStatus` or `solved: true`) makes it
/// skipped and not solved.
pub proof fn law_skipped_unsolves(existing: Option<ProgressView>, body: ProgressBody)
    requires
        body.active != Some(true),
        body.clear_status != Some(true),
        body.solved != Some(true),
        body.skipped == Some(true),
        progress_result(existing, body) is Ok,
    ensures
        progress_result(existing, body)->Ok_0.skipped,
        !progress_result(existing, body)->Ok_0.solved,
{
}

/// An update that gives no field leaves the stored progress as it was.
pub proof fn law_empty_update_keeps(existing: ProgressView, body: ProgressBody)
    requires
        body.solved is None,
        body.skipped is None,
        body.active is None,
        body.clear_status is None,
        body.video_used is None,
        body.clear_time is None,
        body.time is None,
        body.time_seconds is None,
    ensures
        progress_result(Some(existing), body) == Ok::<ProgressView, Seq<char>>(existing),
{
}

/// An accepted update never records a negative time, when none was recorded before.
pub proof fn law_update_time_not_negative(existing: Option<ProgressView>, body: ProgressBody)
    requires
        base_progress(existing).time_seconds matches Some(t) ==> t >= 0,
        progress_time_fits(existing, body),
        progress_result(existing, body) is Ok,
    ensures
        progress_result(existing, body)->Ok_0.time_seconds matches Some(t) ==> t >= 0,
{
    if let Some(t) = body.time {
        law_time_not_negative(t@);
    }
}

/// Clearing the time removes the recorded time.
pub proof fn law_clear_time_removes(existing: Option<ProgressView>, body: ProgressBody)
    requires
        body.clear_time == Some(true),
        progress_result(existing, body) is Ok,
    ensures
        progress_result(existing, body)->Ok_0.time_seconds is None,
{
}

/// Setting `timeSeconds` to a number that is not negative records that number.
pub proof fn law_time_seconds_recorded(existing: Option<ProgressView>, body: ProgressBody, n: i64)
    requires
        body.clear_time != Some(true),
        body.time_seconds == Some(FieldValue::Int(n)),
        n >= 0,
        progress_result(existing, body) is Ok,
    ensures
        progress_result(existing, body)->Ok_0.time_seconds == Some(n),
{
}

} // verus!

verus! {

/// The download addresses hold no address twice, hold exactly the addresses listed, and
/// the first is the first listed (the link itself).
pub proof fn law_candidates_distinct(s: Seq<Seq<char>>)
    ensures
        without_repeats(s).no_duplicates(),
        forall|x: Seq<char>| s.contains(x) <==> #[trigger] without_repeats(s).contains(x),
        s.len() > 0 ==> without_repeats(s).len() > 0 && without_repeats(s)[0] == s[0],
    decreases s.len(),
{
    lemma_without_repeats_contains(s);
    if s.len() > 0 {
        law_candidates_distinct(s.drop_last());
        let r = without_repeats(s.drop_last());
        if !s.drop_last().contains(s.last()) {
            assert(!r.contains(s.last()));
            let r2 = r.push(s.last());
            assert forall|i: int, j: int| 0 <= i < r2.len() && 0 <= j < r2.len() && i != j implies r2[i]
                != r2[j] by {
                if i < r.len() && j < r.len() {
                } else if i < r.len() {
                    assert(r.contains(r[i]));
                } else {
                    assert(r.contains(r[j]));
                }
            }
            if s.len() > 1 {
                assert(r2[0] == r[0]);
                assert(s.drop_last()[0] == s[0]);
            }
        } else if s.len() == 1 {
            assert(!s.drop_last().contains(s.last()));
        } else {
            assert(s.drop_last()[0] == s[0]);
        }
    }
}

} // verus!

verus! {

/// The keys of the first texts of each key: no key twice, and the same keys as all texts.
proof fn lemma_first_of_each_key(ps: Seq<Seq<char>>)
    ensures
        keys_of(first_of_each_key(ps, keys_of(ps))).no_duplicates(),
        forall|k: Seq<char>|
            #[trigger] keys_of(ps).contains(k) <==> keys_of(first_of_each_key(ps, keys_of(ps))).contains(k),
    decreases ps.len(),
{
    if ps.len() > 0 {
        let n = ps.len() - 1;
        let pd = ps.drop_last();
        lemma_first_of_each_key(pd);
        let ks = keys_of(ps);
        lemma_keys_of_index(ps);
        lemma_keys_of_index(pd);
        assert(ks == keys_of(pd).push(constraint_key(ps.last())));
        assert(ks.take(n) =~= keys_of(pd));
        let r = first_of_each_key(pd, keys_of(pd));
        let kr = keys_of(r);
        let key = constraint_key(ps.last());
        assert(ks[n] == key);
        assert(ks =~= keys_of(pd).push(key));
        if keys_of(pd).contains(key) {
            assert forall|k: Seq<char>| #[trigger] ks.contains(k) <==> kr.contains(k) by {
                if ks.contains(k) {
                    let i = choose|i: int| 0 <= i < ks.len() && ks[i] == k;
                    if i < n {
                        assert(keys_of(pd)[i] == k);
                    }
                    assert(keys_of(pd).contains(k));
                }
                if kr.contains(k) {
                    assert(keys_of(pd).contains(k));
                    let i = choose|i: int| 0 <= i < keys_of(pd).len() && keys_of(pd)[i] == k;
                    assert(ks[i] == k);
                }
            }
        } else {
            let r2 = r.push(ps.last());
            assert(r2.drop_last() =~= r);
            let kr2 = keys_of(r2);
            assert(kr2 =~= kr.push(key));
            assert(!kr.contains(key));
            assert forall|i: int, j: int| 0 <= i < kr2.len() && 0 <= j < kr2.len() && i != j implies kr2[i]
                != kr2[j] by {
                if i < kr.len() && j < kr.len() {
                } else if i < kr.len() {
                    assert(kr.contains(kr[i]));
                } else {
                    assert(kr.contains(kr[j]));
                }
            }
            assert forall|k: Seq<char>| #[trigger] ks.contains(k) <==> kr2.contains(k) by {
                if ks.contains(k) {
                    let i = choose|i: int| 0 <= i < ks.len() && ks[i] == k;
                    if i < n {
                        assert(keys_of(pd)[i] == k);
                        assert(keys_of(pd).contains(k));
                        let j = choose|j: int| 0 <= j < kr.len() && kr[j] == k;
                        assert(kr2[j] == k);
                    } else {
                        assert(kr2[kr.len() as int] == k);
                    }
                }
                if kr2.contains(k) {
                    let j = choose|j: int| 0 <= j < kr2.len() && kr2[j] == k;
                    if j < kr.len() {
                        assert(kr[j] == k);
                        assert(keys_of(pd).contains(k));
                        let i = choose|i: int| 0 <= i < keys_of(pd).len() && keys_of(pd)[i] == k;
                        assert(ks[i] == k);
                    } else {
                        assert(ks[n] == k);
                    }
                }
            }
        }
    }
}

/// The distinct constraints hold one text per key: no two of them have the same key, and
/// the key of every constraint is the key of one of them.
pub proof fn law_unique_constraint_keys(ps: Seq<Seq<char>>)
    ensures
        forall|i: int, j: int|
            0 <= i < j < first_of_each_key(ps, keys_of(ps)).len() ==> constraint_key(
                #[trigger] first_of_each_key(ps, keys_of(ps))[i],
            ) != constraint_key(#[trigger] first_of_each_key(ps, keys_of(ps))[j]),
        forall|i: int|
            0 <= i < ps.len() ==> exists|j: int|
                0 <= j < first_of_each_key(ps, keys_of(ps)).len() && constraint_key(
                    #[trigger] first_of_each_key(ps, keys_of(ps))[j],
                ) == constraint_key(#[trigger] ps[i]),
{
    lemma_first_of_each_key(ps);
    let r = first_of_each_key(ps, keys_of(ps));
    lemma_keys_of_index(r);
    lemma_keys_of_index(ps);
    assert forall|i: int, j: int| 0 <= i < j < r.len() implies constraint_key(#[trigger] r[i])
        != constraint_key(#[trigger] r[j]) by {
        assert(keys_of(r)[i] == constraint_key(r[i]));
        assert(keys_of(r)[j] == constraint_key(r[j]));
    }
    assert forall|i: int| 0 <= i < ps.len() implies exists|j: int|
        0 <= j < r.len() && constraint_key(#[trigger] r[j]) == constraint_key(#[trigger] ps[i]) by {
        let k = constraint_key(ps[i]);
        assert(keys_of(ps)[i] == k);
        assert(keys_of(ps).contains(k));
        let j = choose|j: int| 0 <= j < keys_of(r).len() && keys_of(r)[j] == k;
        assert(constraint_key(r[j]) == k);
    }
}

} // verus!

verus! {

proof fn lemma_choice_fixed(t: Seq<char>)
    requires
        t == "none"@ || t == "partial"@ || t == "full"@,
    ensures
        video_choice(lower_text(trim(t))) == Some(t),
{
    reveal_strlit("none");
    reveal_strlit("partial");
    reveal_strlit("full");
    assert forall|i: int| 0 <= i < t.len() implies !is_ws(#[trigger] t[i]) by {}
    lemma_trim_plain(t);
    assert(all_ascii(t));
    assert(ascii_lower(t) =~= t);
}

/// A video-use value that was read reads as itself again.
pub proof fn law_video_value_stable(v: Seq<char>)
    requires
        video_choice(lower_text(trim(v))) is Some,
    ensures
        video_choice(lower_text(trim(video_choice(lower_text(trim(v)))->0))) == video_choice(
            lower_text(trim(v)),
        ),
{
    lemma_choice_fixed(video_choice(lower_text(trim(v)))->0);
}

} // verus!

verus! {

/// Any arrangement of the distinct constraints holds no two texts with the same key, and
/// holds a text of the key of every constraint.
pub proof fn law_unique_constraints_any_order(r: Seq<Seq<char>>, ps: Seq<Seq<char>>)
    requires
        r.to_multiset() == first_of_each_key(ps, keys_of(ps)).to_multiset(),
    ensures
        forall|i: int, j: int|
            0 <= i < j < r.len() ==> constraint_key(#[trigger] r[i]) != constraint_key(#[trigger] r[j]),
        forall|i: int|
            0 <= i < ps.len() ==> exists|j: int|
                0 <= j < r.len() && constraint_key(#[trigger] r[j]) == constraint_key(#[trigger] ps[i]),
{
    broadcast use vstd::seq_lib::group_to_multiset_ensures;

    let s = first_of_each_key(ps, keys_of(ps));
    law_unique_constraint_keys(ps);
    assert forall|a: int, b: int| 0 <= a < s.len() && 0 <= b < s.len() && a != b implies s[a] != s[b] by {
        if a < b {
            assert(constraint_key(s[a]) != constraint_key(s[b]));
        } else {
            assert(constraint_key(s[b]) != constraint_key(s[a]));
        }
    }
    assert(s.no_duplicates());
    s.lemma_multiset_has_no_duplicates();
    r.lemma_multiset_has_no_duplicates_conv();
    assert forall|i: int, j: int| 0 <= i < j < r.len() implies constraint_key(#[trigger] r[i]) != constraint_key(
        #[trigger] r[j],
    ) by {
        assert(r.contains(r[i]));
        assert(r.contains(r[j]));
        assert(r.to_multiset().count(r[i]) > 0);
        assert(r.to_multiset().count(r[j]) > 0);
        assert(s.contains(r[i]));
        assert(s.contains(r[j]));
        let a = choose|a: int| 0 <= a < s.len() && s[a] == r[i];
        let b = choose|b: int| 0 <= b < s.len() && s[b] == r[j];
        assert(r[i] != r[j]);
        if a < b {
            assert(constraint_key(s[a]) != constraint_key(s[b]));
        } else {
            assert(constraint_key(s[b]) != constraint_key(s[a]));
        }
    }
    assert forall|i: int| 0 <= i < ps.len() implies exists|j: int|
        0 <= j < r.len() && constraint_key(#[trigger] r[j]) == constraint_key(#[trigger] ps[i]) by {
        let k = choose|k: int| 0 <= k < s.len() && constraint_key(#[trigger] s[k]) == constraint_key(ps[i]);
        assert(s.contains(s[k]));
        assert(s.to_multiset().count(s[k]) > 0);
        assert(r.contains(s[k]));
        let j = choose|j: int| 0 <= j < r.len() && r[j] == s[k];
        assert(constraint_key(r[j]) == constraint_key(ps[i]));
    }
}

} // verus!

verus! {

/// The puzzle offered next is neither solved nor skipped, and every puzzle before it in
/// the list is solved or skipped.
pub proof fn law_next_is_first_unplayed(filtered: Seq<MergedPuzzle>, i: int)
    requires
        0 <= i < filtered.len(),
        is_active(filtered[i]),
        forall|j: int| 0 <= j < i ==> !is_active(#[trigger] filtered[j]),
    ensures
        !filtered[i].solved,
        !filtered[i].skipped,
        forall|j: int| 0 <= j < i ==> (#[trigger] filtered[j]).solved || filtered[j].skipped,
{
}

/// No puzzle is offered next only when every puzzle of the list is solved or skipped.
pub proof fn law_no_next_all_played(filtered: Seq<MergedPuzzle>)
    requires
        forall|j: int| 0 <= j < filtered.len() ==> !is_active(#[trigger] filtered[j]),
    ensures
        forall|j: int| 0 <= j < filtered.len() ==> (#[trigger] filtered[j]).solved || filtered[j].skipped,
{
}

/// An update that gives `skipped` (without `active`, `clearStatus` or `solved: true`)
/// leaves the skipped flag exactly as given: `skipped: false` un-skips a skipped puzzle,
/// and `skipped: true` also unsolves it.
pub proof fn law_skipped_sets_flag(existing: Option<ProgressView>, body: ProgressBody, b: bool)
    requires
        body.active != Some(true),
        body.clear_status != Some(true),
        body.solved != Some(true),
        body.skipped == Some(b),
        progress_result(existing, body) is Ok,
    ensures
        progress_result(existing, body)->Ok_0.skipped == b,
        b ==> !progress_result(existing, body)->Ok_0.solved,
{
}

} // verus!
