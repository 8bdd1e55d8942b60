//! Properties of the library that span its functions.
use vstd::prelude::*;
use crate::logic::{
    any_term_in, filter_tokens, format_seconds_spec, lower_each, passes_spec, time_pieces, time_value,
};
use crate::numbers::{
    all_digits, decimal, digits_value, int_text_value, is_digit, lemma_decimal_digits,
    lemma_pad2_digits, pad2, parse_i64_spec, parse_in_range,
};
use crate::text::{
    contains, is_ws, lower_text, nonempty_only, split_on, strip_ws, trim, trim_each, trim_end, trim_start,
};

verus! {

proof fn lemma_strip_ws_keeps(s: Seq<char>)
    requires
        forall|i: int| 0 <= i < s.len() ==> !is_ws(#[trigger] s[i]),
    ensures
        strip_ws(s) == s,
    decreases s.len(),
{
    if s.len() > 0 {
        lemma_strip_ws_keeps(s.drop_last());
        assert(s.drop_last().push(s.last()) =~= s);
    }
}

proof fn lemma_split_plain(s: Seq<char>, a: char, b: char)
    requires
        forall|i: int| 0 <= i < s.len() ==> #[trigger] s[i] != a && s[i] != b,
    ensures
        split_on(s, a, b) == seq![s],
    decreases s.len(),
{
    if s.len() > 0 {
        lemma_split_plain(s.drop_last(), a, b);
        assert(s.drop_last().push(s.last()) =~= s);
        assert(seq![s.drop_last()].update(0, s.drop_last().push(s.last())) =~= seq![s]);
    } else {
        assert(s =~= Seq::<char>::empty());
    }
}

proof fn lemma_split_extend(x: Seq<char>, y: Seq<char>, a: char, b: char)
    requires
        forall|i: int| 0 <= i < y.len() ==> #[trigger] y[i] != a && y[i] != b,
    ensures
        split_on(x + y, a, b) == split_on(x, a, b).update(
            split_on(x, a, b).len() - 1,
            split_on(x, a, b).last() + y,
        ),
    decreases y.len(),
{
    crate::text::lemma_split_on_len(x, a, b);
    if y.len() == 0 {
        assert(x + y =~= x);
        assert(split_on(x, a, b).last() + y =~= split_on(x, a, b).last());
        assert(split_on(x, a, b).update(split_on(x, a, b).len() - 1, split_on(x, a, b).last())
            =~= split_on(x, a, b));
    } else {
        lemma_split_extend(x, y.drop_last(), a, b);
        assert((x + y).drop_last() =~= x + y.drop_last());
        assert((x + y).last() == y.last());
        let r = split_on(x, a, b);
        assert(r.last() + y.drop_last() + seq![y.last()] =~= r.last() + y);
        assert((r.last() + y.drop_last()).push(y.last()) =~= r.last() + y);
        assert(r.update(r.len() - 1, r.last() + y.drop_last()).update(
            r.len() - 1,
            (r.last() + y.drop_last()).push(y.last()),
        ) =~= r.update(r.len() - 1, r.last() + y));
    }
}

proof fn lemma_split_sep(x: Seq<char>, a: char, b: char)
    ensures
        split_on(x.push(a), a, b) == split_on(x, a, b).push(Seq::empty()),
{
    assert(x.push(a).drop_last() =~= x);
}

proof fn lemma_digits_plain(s: Seq<char>)
    requires
        all_digits(s),
    ensures
        forall|i: int| 0 <= i < s.len() ==> #[trigger] s[i] != ':' && !is_ws(s[i]),
{
    assert forall|i: int| 0 <= i < s.len() implies #[trigger] s[i] != ':' && !is_ws(s[i]) by {
        assert(is_digit(s[i]));
    }
}

proof fn lemma_parse_digits(s: Seq<char>)
    requires
        all_digits(s),
        s.len() >= 1,
        digits_value(s) <= i64::MAX,
    ensures
        parse_i64_spec(s) == Some(digits_value(s) as int),
{
    assert(is_digit(s[0]));
}

/// A written time is not empty and holds no white space.
pub proof fn lemma_format_plain(sec: int)
    requires
        0 <= sec,
    ensures
        format_seconds_spec(sec).len() > 0,
        forall|i: int| 0 <= i < format_seconds_spec(sec).len() ==> !is_ws(#[trigger] format_seconds_spec(sec)[i]),
{
    let d = decimal((sec / 3600) as nat);
    let p = pad2(((sec % 3600) / 60) as nat);
    let q = pad2((sec % 60) as nat);
    lemma_decimal_digits((sec / 3600) as nat);
    lemma_pad2_digits(((sec % 3600) / 60) as nat);
    lemma_pad2_digits((sec % 60) as nat);
    lemma_digits_plain(d);
    lemma_digits_plain(p);
    lemma_digits_plain(q);
    let f = format_seconds_spec(sec);
    assert(f == d + seq![':'] + p + seq![':'] + q);
    assert forall|i: int| 0 <= i < f.len() implies !is_ws(#[trigger] f[i]) by {
        if i < d.len() {
            assert(f[i] == d[i]);
        } else if i == d.len() {
        } else if i < d.len() + 1 + p.len() {
            assert(f[i] == p[i - d.len() - 1]);
        } else if i == d.len() + 1 + p.len() {
        } else {
            assert(f[i] == q[i - d.len() - 2 - p.len()]);
        }
    }
}

/// A number of seconds written by `format_seconds` is read back by `parse_time_to_seconds`
/// as the same number.
pub proof fn law_time_round_trip(sec: int)
    requires
        0 <= sec <= i64::MAX,
    ensures
        time_value(format_seconds_spec(sec)) == Some(sec),
{
    let h = (sec / 3600) as nat;
    let m = ((sec % 3600) / 60) as nat;
    let s = (sec % 60) as nat;
    let d = decimal(h);
    let p = pad2(m);
    let q = pad2(s);
    lemma_decimal_digits(h);
    lemma_pad2_digits(m);
    lemma_pad2_digits(s);
    lemma_digits_plain(d);
    lemma_digits_plain(p);
    lemma_digits_plain(q);
    let f = format_seconds_spec(sec);
    assert(f == d + seq![':'] + p + seq![':'] + q);
    lemma_format_plain(sec);
    lemma_strip_ws_keeps(f);
    lemma_split_plain(d, ':', ':');
    lemma_split_sep(d, ':', ':');
    assert(d + seq![':'] =~= d.push(':'));
    lemma_split_extend(d.push(':'), p, ':', ':');
    assert(seq![d].push(Seq::<char>::empty()).update(1, Seq::<char>::empty() + p) =~= seq![d, p]);
    let dp = d.push(':') + p;
    lemma_split_sep(dp, ':', ':');
    lemma_split_extend(dp.push(':'), q, ':', ':');
    assert(seq![d, p].push(Seq::<char>::empty()).update(2, Seq::<char>::empty() + q) =~= seq![d, p, q]);
    assert(dp.push(':') + q =~= f);
    let parts = split_on(f, ':', ':');
    assert(parts == seq![d, p, q]);
    assert(time_pieces(f) == Some(parts));
    assert(sec == 3600 * (sec / 3600) + sec % 3600) by (nonlinear_arith)
        requires
            sec >= 0,
    ;
    assert(sec % 3600 == 60 * ((sec % 3600) / 60) + (sec % 3600) % 60) by (nonlinear_arith)
        requires
            sec >= 0,
    ;
    assert((sec % 3600) % 60 == sec % 60) by (nonlinear_arith)
        requires
            sec >= 0,
    ;
    assert(h <= i64::MAX);
    lemma_parse_digits(d);
    lemma_parse_digits(p);
    lemma_parse_digits(q);
}

/// A time that reads is never negative.
pub proof fn law_time_not_negative(s: Seq<char>)
    ensures
        time_value(s) matches Some(v) ==> v >= 0,
{
    if let Some(parts) = time_pieces(s) {
        if parts.len() == 3 {
            assert(!(exists|i: int| 0 <= i < parts.len() && ((#[trigger] parts[i]).len() == 0 || !all_digits(parts[i]))));
            assert(parts[0].len() > 0 && all_digits(parts[0]));
            assert(is_digit(parts[0][0]));
        } else if parts.len() == 2 {
            assert(!(exists|i: int| 0 <= i < parts.len() && ((#[trigger] parts[i]).len() == 0 || !all_digits(parts[i]))));
            assert(parts[0].len() > 0 && all_digits(parts[0]));
            assert(is_digit(parts[0][0]));
        }
    }
}

} // verus!

verus! {

/// Text without white space is its own trim.
pub proof fn lemma_trim_plain(s: Seq<char>)
    requires
        forall|i: int| 0 <= i < s.len() ==> !is_ws(#[trigger] s[i]),
    ensures
        trim(s) == s,
{
    if s.len() > 0 {
        assert(!is_ws(s[0]));
        assert(!is_ws(s.last()));
    }
}

proof fn lemma_trim_start_skip(s: Seq<char>) -> (k: int)
    ensures
        0 <= k <= s.len(),
        trim_start(s) == s.skip(k),
        k < s.len() ==> !is_ws(s[k]),
    decreases s.len(),
{
    if s.len() > 0 && is_ws(s[0]) {
        let k1 = lemma_trim_start_skip(s.drop_first());
        assert(s.drop_first().skip(k1) =~= s.skip(k1 + 1));
        k1 + 1
    } else {
        assert(s.skip(0) =~= s);
        0
    }
}

proof fn lemma_trim_end_take(s: Seq<char>) -> (k: int)
    ensures
        0 <= k <= s.len(),
        trim_end(s) == s.take(k),
        k > 0 ==> !is_ws(s[k - 1]),
    decreases s.len(),
{
    if s.len() > 0 && is_ws(s.last()) {
        let k1 = lemma_trim_end_take(s.drop_last());
        assert(s.drop_last().take(k1) =~= s.take(k1));
        k1
    } else {
        assert(s.take(s.len() as int) =~= s);
        s.len() as int
    }
}

/// Trimming twice is trimming once.
pub proof fn lemma_trim_idempotent(s: Seq<char>)
    ensures
        trim(trim(s)) == trim(s),
{
    let a = lemma_trim_start_skip(s);
    let y = s.skip(a);
    let b = lemma_trim_end_take(y);
    let z = y.take(b);
    assert(trim(s) == z);
    if z.len() > 0 {
        assert(z[0] == y[0]);
        assert(!is_ws(z[0]));
        assert(trim_start(z) == z);
        assert(z.last() == y[b - 1]);
        assert(trim_end(z) == z);
    }
}

/// The characters of a trimmed text are characters of the text.
pub proof fn lemma_trim_chars(s: Seq<char>)
    ensures
        forall|i: int| 0 <= i < trim(s).len() ==> s.contains(#[trigger] trim(s)[i]),
{
    let a = lemma_trim_start_skip(s);
    let y = s.skip(a);
    let b = lemma_trim_end_take(y);
    assert forall|i: int| 0 <= i < trim(s).len() implies s.contains(#[trigger] trim(s)[i]) by {
        assert(trim(s)[i] == s[a + i]);
    }
}

proof fn lemma_split_pieces_plain(s: Seq<char>, a: char, b: char)
    ensures
        forall|i: int, j: int|
            0 <= i < split_on(s, a, b).len() && 0 <= j < split_on(s, a, b)[i].len() ==> #[trigger] split_on(s, a, b)[i][j]
                != a && split_on(s, a, b)[i][j] != b,
    decreases s.len(),
{
    crate::text::lemma_split_on_len(s, a, b);
    if s.len() > 0 {
        lemma_split_pieces_plain(s.drop_last(), a, b);
        crate::text::lemma_split_on_len(s.drop_last(), a, b);
        let r = split_on(s.drop_last(), a, b);
        assert forall|i: int, j: int|
            0 <= i < split_on(s, a, b).len() && 0 <= j < split_on(s, a, b)[i].len() implies #[trigger] split_on(s, a, b)[i][j]
                != a && split_on(s, a, b)[i][j] != b by {
            if s.last() == a || s.last() == b {
                if i < r.len() {
                    assert(split_on(s, a, b)[i] == r[i]);
                }
            } else {
                if i < r.len() - 1 {
                    assert(split_on(s, a, b)[i] == r[i]);
                } else {
                    assert(split_on(s, a, b)[i] == r.last().push(s.last()));
                    if j < r.last().len() {
                        assert(split_on(s, a, b)[i][j] == r[r.len() - 1][j]);
                    }
                }
            }
        }
    }
}

proof fn lemma_trim_each_index(ss: Seq<Seq<char>>)
    ensures
        trim_each(ss).len() == ss.len(),
        forall|i: int| 0 <= i < ss.len() ==> #[trigger] trim_each(ss)[i] == trim(ss[i]),
    decreases ss.len(),
{
    if ss.len() > 0 {
        lemma_trim_each_index(ss.drop_last());
    }
}

proof fn lemma_nonempty_only_from(ss: Seq<Seq<char>>)
    ensures
        forall|i: int|
            0 <= i < nonempty_only(ss).len() ==> (#[trigger] nonempty_only(ss)[i]).len() > 0
                && ss.contains(nonempty_only(ss)[i]),
    decreases ss.len(),
{
    if ss.len() > 0 {
        lemma_nonempty_only_from(ss.drop_last());
        let r = nonempty_only(ss.drop_last());
        assert forall|i: int|
            0 <= i < nonempty_only(ss).len() implies (#[trigger] nonempty_only(ss)[i]).len() > 0
                && ss.contains(nonempty_only(ss)[i]) by {
            if i < r.len() {
                assert(nonempty_only(ss)[i] == r[i]);
                let k = choose|k: int| 0 <= k < ss.drop_last().len() && ss.drop_last()[k] == r[i];
                assert(ss[k] == r[i]);
            } else {
                assert(nonempty_only(ss)[i] == ss.last());
                assert(ss[ss.len() - 1] == ss.last());
            }
        }
    }
}

/// Every filter term is non-empty, trimmed, and free of commas and line breaks.
pub proof fn law_filter_tokens_clean(raw: Seq<char>)
    ensures
        forall|i: int|
            0 <= i < filter_tokens(raw).len() ==> {
                let t = #[trigger] filter_tokens(raw)[i];
                &&& t.len() > 0
                &&& trim(t) == t
                &&& !t.contains(',')
                &&& !t.contains('\n')
            },
{
    let pieces = split_on(raw, '\n', ',');
    let ts = trim_each(pieces);
    lemma_nonempty_only_from(ts);
    lemma_trim_each_index(pieces);
    lemma_split_pieces_plain(raw, '\n', ',');
    assert forall|i: int| 0 <= i < filter_tokens(raw).len() implies {
        let t = #[trigger] filter_tokens(raw)[i];
        &&& t.len() > 0
        &&& trim(t) == t
        &&& !t.contains(',')
        &&& !t.contains('\n')
    } by {
        let t = filter_tokens(raw)[i];
        let k = choose|k: int| 0 <= k < ts.len() && ts[k] == t;
        assert(t == trim(pieces[k]));
        lemma_trim_idempotent(pieces[k]);
        lemma_trim_chars(pieces[k]);
        if t.contains(',') {
            let j = choose|j: int| 0 <= j < t.len() && t[j] == ',';
            assert(pieces[k].contains(t[j]));
            let m = choose|m: int| 0 <= m < pieces[k].len() && pieces[k][m] == t[j];
            assert(split_on(raw, '\n', ',')[k][m] != ',');
        }
        if t.contains('\n') {
            let j = choose|j: int| 0 <= j < t.len() && t[j] == '\n';
            assert(pieces[k].contains(t[j]));
            let m = choose|m: int| 0 <= m < pieces[k].len() && pieces[k][m] == t[j];
            assert(split_on(raw, '\n', ',')[k][m] != '\n');
        }
    }
}

/// The empty filter text has no terms.
pub proof fn law_empty_filter_no_terms()
    ensures
        filter_tokens(Seq::empty()) == Seq::<Seq<char>>::empty(),
{
    let e = Seq::<char>::empty();
    assert(split_on(e, '\n', ',') == seq![e]);
    assert(trim(e) == e);
    assert(seq![e].drop_last() =~= Seq::<Seq<char>>::empty());
    assert(trim_each(seq![e]) =~= seq![e]) by {
        assert(trim_each(seq![e]) == trim_each(seq![e].drop_last()).push(trim(e)));
    }
    assert(nonempty_only(seq![e]) =~= Seq::<Seq<char>>::empty()) by {
        assert(nonempty_only(seq![e]) == nonempty_only(seq![e].drop_last()));
    }
}

/// With no include terms and no exclude terms, every puzzle passes the filters.
pub proof fn law_no_terms_pass(c: Seq<char>, include_raw: Seq<char>, exclude_raw: Seq<char>)
    requires
        filter_tokens(include_raw).len() == 0,
        filter_tokens(exclude_raw).len() == 0,
    ensures
        passes_spec(c, include_raw, exclude_raw),
{
    assert(lower_each(filter_tokens(include_raw)).len() == 0);
    assert(lower_each(filter_tokens(exclude_raw)).len() == 0);
}

/// An exclude term that occurs rejects the puzzle, whatever the include terms.
pub proof fn law_exclusion_wins(c: Seq<char>, include_raw: Seq<char>, exclude_raw: Seq<char>)
    requires
        any_term_in(lower_text(c), lower_each(filter_tokens(exclude_raw))),
    ensures
        !passes_spec(c, include_raw, exclude_raw),
{
}

/// Without a matching exclude term, a matching include term admits the puzzle.
pub proof fn law_inclusion_admits(c: Seq<char>, include_raw: Seq<char>, exclude_raw: Seq<char>)
    requires
        !any_term_in(lower_text(c), lower_each(filter_tokens(exclude_raw))),
        any_term_in(lower_text(c), lower_each(filter_tokens(include_raw))),
    ensures
        passes_spec(c, include_raw, exclude_raw),
{
}

} // verus!

verus! {

/// Splitting at a separator joins the pieces of both sides.
proof fn lemma_split_concat(x: Seq<char>, y: Seq<char>)
    ensures
        split_on(x.push(',') + y, '\n', ',') == split_on(x, '\n', ',') + split_on(y, '\n', ','),
    decreases y.len(),
{
    crate::text::lemma_split_on_len(y, '\n', ',');
    if y.len() == 0 {
        assert(x.push(',') + y =~= x.push(','));
        assert(x.push(',').drop_last() =~= x);
        assert(split_on(y, '\n', ',') == seq![Seq::<char>::empty()]);
        assert(split_on(x, '\n', ',').push(Seq::empty()) =~= split_on(x, '\n', ',') + seq![Seq::<char>::empty()]);
    } else {
        let z = x.push(',') + y;
        let yd = y.drop_last();
        assert(z.drop_last() =~= x.push(',') + yd);
        assert(z.last() == y.last());
        lemma_split_concat(x, yd);
        crate::text::lemma_split_on_len(yd, '\n', ',');
        let a = split_on(x, '\n', ',');
        let b = split_on(yd, '\n', ',');
        if y.last() == '\n' || y.last() == ',' {
            assert((a + b).push(Seq::empty()) =~= a + b.push(Seq::empty()));
        } else {
            assert((a + b).update((a + b).len() - 1, (a + b).last().push(y.last())) =~= a + b.update(
                b.len() - 1,
                b.last().push(y.last()),
            ));
        }
    }
}

proof fn lemma_trim_each_concat(a: Seq<Seq<char>>, b: Seq<Seq<char>>)
    ensures
        trim_each(a + b) == trim_each(a) + trim_each(b),
    decreases b.len(),
{
    if b.len() == 0 {
        assert(a + b =~= a);
        assert(trim_each(a) + trim_each(b) =~= trim_each(a));
    } else {
        lemma_trim_each_concat(a, b.drop_last());
        assert((a + b).drop_last() =~= a + b.drop_last());
        assert((trim_each(a) + trim_each(b.drop_last())).push(trim(b.last())) =~= trim_each(a) + trim_each(b));
    }
}

proof fn lemma_nonempty_concat(a: Seq<Seq<char>>, b: Seq<Seq<char>>)
    ensures
        nonempty_only(a + b) == nonempty_only(a) + nonempty_only(b),
    decreases b.len(),
{
    if b.len() == 0 {
        assert(a + b =~= a);
        assert(nonempty_only(a) + nonempty_only(b) =~= nonempty_only(a));
    } else {
        lemma_nonempty_concat(a, b.drop_last());
        assert((a + b).drop_last() =~= a + b.drop_last());
        if b.last().len() > 0 {
            assert((nonempty_only(a) + nonempty_only(b.drop_last())).push(b.last()) =~= nonempty_only(a)
                + nonempty_only(b));
        }
    }
}

proof fn lemma_lower_each_concat(a: Seq<Seq<char>>, b: Seq<Seq<char>>)
    ensures
        lower_each(a + b) == lower_each(a) + lower_each(b),
    decreases b.len(),
{
    if b.len() == 0 {
        assert(a + b =~= a);
        assert(lower_each(a) + lower_each(b) =~= lower_each(a));
    } else {
        lemma_lower_each_concat(a, b.drop_last());
        assert((a + b).drop_last() =~= a + b.drop_last());
        assert((lower_each(a) + lower_each(b.drop_last())).push(lower_text(b.last())) =~= lower_each(a)
            + lower_each(b));
    }
}

/// The filter terms of two texts joined by a comma are the terms of the first followed
/// by the terms of the second.
pub proof fn lemma_filter_tokens_concat(e: Seq<char>, t: Seq<char>)
    ensures
        filter_tokens(e.push(',') + t) == filter_tokens(e) + filter_tokens(t),
{
    lemma_split_concat(e, t);
    lemma_trim_each_concat(split_on(e, '\n', ','), split_on(t, '\n', ','));
    lemma_nonempty_concat(trim_each(split_on(e, '\n', ',')), trim_each(split_on(t, '\n', ',')));
}

/// Adding exclude terms never lets more puzzles through: a puzzle that passes with the
/// exclude text `e` followed by a comma and more terms `t` also passes with `e` alone.
pub proof fn law_more_exclusions_admit_less(c: Seq<char>, include_raw: Seq<char>, e: Seq<char>, t: Seq<char>)
    requires
        passes_spec(c, include_raw, e.push(',') + t),
    ensures
        passes_spec(c, include_raw, e),
{
    lemma_filter_tokens_concat(e, t);
    lemma_lower_each_concat(filter_tokens(e), filter_tokens(t));
    let le = lower_each(filter_tokens(e));
    let lt = lower_each(filter_tokens(t));
    let lc = lower_text(c);
    if any_term_in(lc, le) {
        let i = choose|i: int| 0 <= i < le.len() && contains(lc, #[trigger] le[i]);
        assert((le + lt)[i] == le[i]);
        assert(any_term_in(lc, le + lt));
    }
}

/// A puzzle that the include terms reject with no exclude terms is rejected whatever the
/// exclude terms.
pub proof fn law_include_rejection_stays(c: Seq<char>, include_raw: Seq<char>, exclude_raw: Seq<char>)
    requires
        !passes_spec(c, include_raw, Seq::empty()),
    ensures
        !passes_spec(c, include_raw, exclude_raw),
{
    law_empty_filter_no_terms();
    assert(lower_each(filter_tokens(Seq::<char>::empty())).len() == 0);
}

/// With both filter texts empty, every puzzle passes.
pub proof fn law_empty_filters_pass(c: Seq<char>)
    ensures
        passes_spec(c, Seq::empty(), Seq::empty()),
{
    law_empty_filter_no_terms();
    law_no_terms_pass(c, Seq::empty(), Seq::empty());
}

} // verus!

verus! {

/// A filter text without commas or line breaks that is not blank is a single term: the
/// trimmed text, with its inner spaces kept.
pub proof fn law_single_term(raw: Seq<char>)
    requires
        forall|i: int| 0 <= i < raw.len() ==> #[trigger] raw[i] != '\n' && raw[i] != ',',
        trim(raw).len() > 0,
    ensures
        filter_tokens(raw) == seq![trim(raw)],
{
    lemma_split_plain(raw, '\n', ',');
    let one = seq![raw];
    assert(one.drop_last() =~= Seq::<Seq<char>>::empty());
    assert(trim_each(one) =~= seq![trim(raw)]) by {
        assert(trim_each(one) == trim_each(one.drop_last()).push(trim(raw)));
    }
    let t = seq![trim(raw)];
    assert(t.drop_last() =~= Seq::<Seq<char>>::empty());
    assert(nonempty_only(t) =~= t) by {
        assert(nonempty_only(t) == nonempty_only(t.drop_last()).push(trim(raw)));
    }
}

/// With an include text that is a single term (no commas or line breaks, not blank) and
/// no exclude terms, a puzzle passes exactly when the lowercased term occurs in its
/// lowercased constraints.
pub proof fn law_single_include_term(c: Seq<char>, include_raw: Seq<char>, exclude_raw: Seq<char>)
    requires
        forall|i: int| 0 <= i < include_raw.len() ==> #[trigger] include_raw[i] != '\n' && include_raw[i] != ',',
        trim(include_raw).len() > 0,
        filter_tokens(exclude_raw).len() == 0,
    ensures
        passes_spec(c, include_raw, exclude_raw) <==> contains(lower_text(c), lower_text(trim(include_raw))),
{
    law_single_term(include_raw);
    let ts = seq![trim(include_raw)];
    assert(ts.drop_last() =~= Seq::<Seq<char>>::empty());
    assert(lower_each(ts) =~= seq![lower_text(trim(include_raw))]) by {
        assert(lower_each(ts) == lower_each(ts.drop_last()).push(lower_text(trim(include_raw))));
    }
    assert(lower_each(filter_tokens(exclude_raw)).len() == 0);
    let lc = lower_text(c);
    let li = seq![lower_text(trim(include_raw))];
    if contains(lc, li[0]) {
        assert(any_term_in(lc, li));
    }
}

} // verus!
