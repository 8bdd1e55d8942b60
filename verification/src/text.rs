//! Character-level text operations over `Seq<char>` views.
use vstd::prelude::*;

verus! {

/// `String::push` appends one character.
pub assume_specification[ String::push ](s: &mut String, ch: char)
    ensures
        final(s)@ == old(s)@.push(ch),
;

/// The Unicode `White_Space` property, which is what `char::is_whitespace` tests.
pub open spec fn is_ws(c: char) -> bool {
    let u = c as u32;
    ||| 0x9 <= u <= 0xd
    ||| u == 0x20
    ||| u == 0x85
    ||| u == 0xa0
    ||| u == 0x1680
    ||| 0x2000 <= u <= 0x200a
    ||| u == 0x2028
    ||| u == 0x2029
    ||| u == 0x202f
    ||| u == 0x205f
    ||| u == 0x3000
}

pub fn is_whitespace(c: char) -> (b: bool)
    ensures
        b == is_ws(c),
{
    let u = c as u32;
    (0x9 <= u && u <= 0xd) || u == 0x20 || u == 0x85 || u == 0xa0 || u == 0x1680 || (0x2000 <= u
        && u <= 0x200a) || u == 0x2028 || u == 0x2029 || u == 0x202f || u == 0x205f || u == 0x3000
}

/// The characters of a string slice.
pub fn chars_of(s: &str) -> (v: Vec<char>)
    ensures
        v@ == s@,
{
    broadcast use vstd::string::group_string_axioms;
    let mut v: Vec<char> = Vec::new();
    for c in it: s.chars()
        invariant
            v@ == it.seq().take(it.index()),
            it.seq() == s@,
    {
        v.push(c);
    }
    v
}

/// A string holding exactly the given characters.
pub fn string_of(v: &Vec<char>) -> (s: String)
    ensures
        s@ == v@,
{
    let mut s = String::new();
    let mut i: usize = 0;
    while i < v.len()
        invariant
            i <= v.len(),
            s@ == v@.take(i as int),
        decreases v.len() - i,
    {
        s.push(v[i]);
        i += 1;
        assert(s@ == v@.take(i as int));
    }
    assert(v@.take(v.len() as int) == v@);
    s
}

} // verus!

verus! {

/// Drops leading white space.
pub open spec fn trim_start(s: Seq<char>) -> Seq<char>
    decreases s.len(),
{
    if s.len() > 0 && is_ws(s[0]) {
        trim_start(s.drop_first())
    } else {
        s
    }
}

/// Drops trailing white space.
pub open spec fn trim_end(s: Seq<char>) -> Seq<char>
    decreases s.len(),
{
    if s.len() > 0 && is_ws(s.last()) {
        trim_end(s.drop_last())
    } else {
        s
    }
}

/// What `str::trim` gives: the text without leading and trailing white space.
pub open spec fn trim(s: Seq<char>) -> Seq<char> {
    trim_end(trim_start(s))
}

/// The characters `v[i..j]`.
pub fn slice_chars(v: &Vec<char>, i: usize, j: usize) -> (r: Vec<char>)
    requires
        i <= j <= v.len(),
    ensures
        r@ == v@.subrange(i as int, j as int),
{
    let mut r: Vec<char> = Vec::new();
    let mut k = i;
    while k < j
        invariant
            i <= k <= j <= v.len(),
            r@ == v@.subrange(i as int, k as int),
        decreases j - k,
    {
        r.push(v[k]);
        k += 1;
        assert(r@ == v@.subrange(i as int, k as int));
    }
    r
}

pub fn trim_start_chars(v: &Vec<char>) -> (r: Vec<char>)
    ensures
        r@ == trim_start(v@),
{
    let mut i: usize = 0;
    assert(v@.skip(0) == v@);
    while i < v.len() && is_whitespace(v[i])
        invariant
            i <= v.len(),
            trim_start(v@) == trim_start(v@.skip(i as int)),
        decreases v.len() - i,
    {
        assert(v@.skip(i as int).drop_first() == v@.skip(i + 1));
        i += 1;
    }
    let r = slice_chars(v, i, v.len());
    assert(r@ == v@.skip(i as int));
    r
}

pub fn trim_chars(v: &Vec<char>) -> (r: Vec<char>)
    ensures
        r@ == trim(v@),
{
    let s = trim_start_chars(v);
    let mut j: usize = s.len();
    assert(s@.take(j as int) == s@);
    while j > 0 && is_whitespace(s[j - 1])
        invariant
            j <= s.len(),
            trim_end(s@) == trim_end(s@.take(j as int)),
        decreases j,
    {
        assert(s@.take(j as int).drop_last() == s@.take(j - 1));
        j -= 1;
    }
    let r = slice_chars(&s, 0, j);
    assert(r@ == s@.take(j as int));
    r
}

/// `str::trim`.
pub fn trim_str(s: &str) -> (r: String)
    ensures
        r@ == trim(s@),
{
    let v = chars_of(s);
    let t = trim_chars(&v);
    string_of(&t)
}

/// Pieces of `s` between characters equal to `a` or `b`, as `str::split` yields them
/// (the empty text gives one empty piece).
pub open spec fn split_on(s: Seq<char>, a: char, b: char) -> Seq<Seq<char>>
    decreases s.len(),
{
    if s.len() == 0 {
        seq![Seq::empty()]
    } else {
        let r = split_on(s.drop_last(), a, b);
        if s.last() == a || s.last() == b {
            r.push(Seq::empty())
        } else {
            r.update(r.len() - 1, r.last().push(s.last()))
        }
    }
}

pub proof fn lemma_split_on_len(s: Seq<char>, a: char, b: char)
    ensures
        split_on(s, a, b).len() >= 1,
    decreases s.len(),
{
    if s.len() > 0 {
        lemma_split_on_len(s.drop_last(), a, b);
    }
}

/// Appends a piece to a list of pieces.
pub fn push_piece(pieces: &mut Vec<Vec<char>>, p: Vec<char>)
    ensures
        final(pieces).deep_view() == old(pieces).deep_view().push(p@),
{
    let ghost old_dv = pieces.deep_view();
    let ghost pv = p@;
    pieces.push(p);
    assert(pieces.deep_view() =~= old_dv.push(pv)) by {
        assert forall|k: int| 0 <= k < pieces.deep_view().len() implies #[trigger] pieces.deep_view()[k]
            == old_dv.push(pv)[k] by {
            assert(pieces@[k].deep_view() =~= pieces@[k]@);
        }
    }
}

/// Appends a string to a list of strings.
pub fn push_string(list: &mut Vec<String>, s: String)
    ensures
        final(list).deep_view() == old(list).deep_view().push(s@),
        final(list).len() == old(list).len() + 1,
{
    let ghost old_dv = list.deep_view();
    let ghost sv = s@;
    list.push(s);
    assert(list.deep_view() =~= old_dv.push(sv));
}

/// Splits at every character equal to `a` or `b`.
pub fn split_chars(v: &Vec<char>, a: char, b: char) -> (r: Vec<Vec<char>>)
    ensures
        r.deep_view() == split_on(v@, a, b),
{
    let mut pieces: Vec<Vec<char>> = Vec::new();
    let mut cur: Vec<char> = Vec::new();
    let mut i: usize = 0;
    assert(v@.take(0) =~= Seq::<char>::empty());
    assert(pieces.deep_view().push(cur@) =~= split_on(v@.take(0), a, b));
    while i < v.len()
        invariant
            i <= v.len(),
            pieces.deep_view().push(cur@) == split_on(v@.take(i as int), a, b),
        decreases v.len() - i,
    {
        let c = v[i];
        let ghost prev = v@.take(i as int);
        assert(v@.take(i + 1).drop_last() == prev);
        proof {
            lemma_split_on_len(prev, a, b);
        }
        if c == a || c == b {
            let done = cur;
            push_piece(&mut pieces, done);
            cur = Vec::new();
            assert(pieces.deep_view().push(cur@) =~= split_on(v@.take(i + 1), a, b));
        } else {
            cur.push(c);
            assert(pieces.deep_view().push(cur@) =~= split_on(v@.take(i + 1), a, b));
        }
        i += 1;
    }
    assert(v@.take(v.len() as int) == v@);
    push_piece(&mut pieces, cur);
    pieces
}

} // verus!

verus! {

/// The text with every white-space character removed.
pub open spec fn strip_ws(s: Seq<char>) -> Seq<char>
    decreases s.len(),
{
    if s.len() == 0 {
        s
    } else {
        let r = strip_ws(s.drop_last());
        if is_ws(s.last()) {
            r
        } else {
            r.push(s.last())
        }
    }
}

/// Each piece trimmed.
pub open spec fn trim_each(ss: Seq<Seq<char>>) -> Seq<Seq<char>>
    decreases ss.len(),
{
    if ss.len() == 0 {
        ss
    } else {
        trim_each(ss.drop_last()).push(trim(ss.last()))
    }
}

/// The non-empty pieces, in order.
pub open spec fn nonempty_only(ss: Seq<Seq<char>>) -> Seq<Seq<char>>
    decreases ss.len(),
{
    if ss.len() == 0 {
        ss
    } else {
        let r = nonempty_only(ss.drop_last());
        if ss.last().len() > 0 {
            r.push(ss.last())
        } else {
            r
        }
    }
}

/// Pieces of `s` between white-space characters.
pub open spec fn split_ws(s: Seq<char>) -> Seq<Seq<char>>
    decreases s.len(),
{
    if s.len() == 0 {
        seq![Seq::empty()]
    } else {
        let r = split_ws(s.drop_last());
        if is_ws(s.last()) {
            r.push(Seq::empty())
        } else {
            r.update(r.len() - 1, r.last().push(s.last()))
        }
    }
}

/// What `str::split_whitespace` yields.
pub open spec fn words(s: Seq<char>) -> Seq<Seq<char>> {
    nonempty_only(split_ws(s))
}

/// The pieces joined with `sep` between them.
pub open spec fn join_with(ws: Seq<Seq<char>>, sep: char) -> Seq<char>
    decreases ws.len(),
{
    if ws.len() == 0 {
        Seq::empty()
    } else if ws.len() == 1 {
        ws[0]
    } else {
        join_with(ws.drop_last(), sep).push(sep) + ws.last()
    }
}

/// The words of `s` joined by single spaces.
pub open spec fn collapse_ws(s: Seq<char>) -> Seq<char> {
    join_with(words(s), ' ')
}

/// `n` occurs in `h` at position `i`.
pub open spec fn occurs_at(h: Seq<char>, n: Seq<char>, i: int) -> bool {
    0 <= i && i + n.len() <= h.len() && h.subrange(i, i + n.len()) == n
}

/// `str::contains` with a text pattern.
pub open spec fn contains(h: Seq<char>, n: Seq<char>) -> bool {
    exists|i: int| occurs_at(h, n, i)
}

/// `str::starts_with` with a text pattern.
pub open spec fn starts_with(s: Seq<char>, p: Seq<char>) -> bool {
    p.len() <= s.len() && s.take(p.len() as int) == p
}

/// The first position at or after `i` where `n` occurs in `h`.
pub open spec fn first_occurrence_from(h: Seq<char>, n: Seq<char>, i: int) -> Option<int>
    decreases h.len() + 1 - i,
{
    if i < 0 || i + n.len() > h.len() {
        None
    } else if occurs_at(h, n, i) {
        Some(i)
    } else {
        first_occurrence_from(h, n, i + 1)
    }
}

/// `str::find` with a text pattern, counted in characters.
pub open spec fn first_occurrence(h: Seq<char>, n: Seq<char>) -> Option<int> {
    first_occurrence_from(h, n, 0)
}

pub fn strip_ws_chars(v: &Vec<char>) -> (r: Vec<char>)
    ensures
        r@ == strip_ws(v@),
{
    let mut r: Vec<char> = Vec::new();
    let mut i: usize = 0;
    assert(v@.take(0) =~= Seq::<char>::empty());
    while i < v.len()
        invariant
            i <= v.len(),
            r@ == strip_ws(v@.take(i as int)),
        decreases v.len() - i,
    {
        assert(v@.take(i + 1).drop_last() == v@.take(i as int));
        if !is_whitespace(v[i]) {
            r.push(v[i]);
        }
        i += 1;
    }
    assert(v@.take(v.len() as int) == v@);
    r
}

pub fn eq_chars(a: &Vec<char>, b: &Vec<char>) -> (r: bool)
    ensures
        r == (a@ == b@),
{
    if a.len() != b.len() {
        return false;
    }
    let mut i: usize = 0;
    while i < a.len()
        invariant
            i <= a.len() == b.len(),
            a@.take(i as int) == b@.take(i as int),
        decreases a.len() - i,
    {
        if a[i] != b[i] {
            return false;
        }
        assert(a@.take(i + 1) == a@.take(i as int).push(a@[i as int]));
        assert(b@.take(i + 1) == b@.take(i as int).push(b@[i as int]));
        i += 1;
    }
    assert(a@.take(a.len() as int) == a@);
    assert(b@.take(b.len() as int) == b@);
    true
}

pub fn occurs_at_chars(h: &Vec<char>, n: &Vec<char>, i: usize) -> (r: bool)
    ensures
        r == occurs_at(h@, n@, i as int),
{
    if i > h.len() || n.len() > h.len() - i {
        return false;
    }
    let mut k: usize = 0;
    while k < n.len()
        invariant
            i + n.len() <= h.len(),
            k <= n.len(),
            h@.subrange(i as int, i + k) == n@.take(k as int),
        decreases n.len() - k,
    {
        if h[i + k] != n[k] {
            assert(h@.subrange(i as int, i + n.len())[k as int] == h@[i + k]);
            return false;
        }
        assert(h@.subrange(i as int, i + k + 1) == h@.subrange(i as int, i + k).push(h@[i + k]));
        assert(n@.take(k + 1) == n@.take(k as int).push(n@[k as int]));
        k += 1;
    }
    assert(n@.take(n.len() as int) == n@);
    true
}

pub fn find_chars(h: &Vec<char>, n: &Vec<char>) -> (r: Option<usize>)
    ensures
        r matches Some(i) ==> first_occurrence(h@, n@) == Some(i as int),
        r is None ==> first_occurrence(h@, n@) is None,
        r is None <==> !contains(h@, n@),
        r matches Some(i) ==> occurs_at(h@, n@, i as int),
{
    if n.len() > h.len() {
        assert forall|j: int| !occurs_at(h@, n@, j) by {}
        return None;
    }
    let limit = h.len() - n.len();
    let mut i: usize = 0;
    while i < limit
        invariant
            n.len() <= h.len(),
            limit == h.len() - n.len(),
            i <= limit,
            first_occurrence(h@, n@) == first_occurrence_from(h@, n@, i as int),
            forall|j: int| 0 <= j < i ==> !occurs_at(h@, n@, j),
        decreases limit - i,
    {
        if occurs_at_chars(h, n, i) {
            return Some(i);
        }
        i += 1;
    }
    if occurs_at_chars(h, n, limit) {
        return Some(limit);
    }
    assert(first_occurrence_from(h@, n@, limit + 1) is None);
    assert forall|j: int| !occurs_at(h@, n@, j) by {}
    None
}

pub fn contains_chars(h: &Vec<char>, n: &Vec<char>) -> (r: bool)
    ensures
        r == contains(h@, n@),
{
    find_chars(h, n).is_some()
}

pub fn starts_with_chars(s: &Vec<char>, p: &Vec<char>) -> (r: bool)
    ensures
        r == starts_with(s@, p@),
{
    let r = occurs_at_chars(s, p, 0);
    assert(s@.subrange(0, p@.len() as int) == s@.take(p@.len() as int));
    r
}

} // verus!

verus! {

pub open spec fn all_ascii(s: Seq<char>) -> bool {
    forall|i: int| 0 <= i < s.len() ==> (#[trigger] s[i] as u32) < 128
}

pub open spec fn ascii_lower_char(c: char) -> char {
    if 65 <= (c as u32) <= 90 {
        ((c as u32) + 32) as char
    } else {
        c
    }
}

pub open spec fn ascii_upper_char(c: char) -> char {
    if 97 <= (c as u32) <= 122 {
        ((c as u32) - 32) as char
    } else {
        c
    }
}

pub open spec fn ascii_lower(s: Seq<char>) -> Seq<char> {
    Seq::new(s.len(), |i: int| ascii_lower_char(s[i]))
}

pub open spec fn ascii_upper(s: Seq<char>) -> Seq<char> {
    Seq::new(s.len(), |i: int| ascii_upper_char(s[i]))
}

/// The text that `str::to_lowercase` returns for a text: its Unicode lowercase mapping.
pub uninterp spec fn lowercase(s: Seq<char>) -> Seq<char>;

/// The text that `str::to_uppercase` returns for a text: its Unicode uppercase mapping.
pub uninterp spec fn uppercase(s: Seq<char>) -> Seq<char>;

/// The lowercase form of a text: the ASCII mapping for ASCII text, the Unicode one otherwise.
pub open spec fn lower_text(s: Seq<char>) -> Seq<char> {
    if all_ascii(s) {
        ascii_lower(s)
    } else {
        lowercase(s)
    }
}

/// The uppercase form of a text: the ASCII mapping for ASCII text, the Unicode one otherwise.
pub open spec fn upper_text(s: Seq<char>) -> Seq<char> {
    if all_ascii(s) {
        ascii_upper(s)
    } else {
        uppercase(s)
    }
}

/// Calls `str::to_lowercase`. Its result is named `lowercase` of the input. For input made
/// of ASCII characters only, the Unicode lowercase mapping is the ASCII one (`A`-`Z` to
/// `a`-`z`, all else unchanged), which is stated; nothing is stated of other input.
#[verifier::external_body]
pub(crate) fn str_to_lowercase(s: &str) -> (r: String)
    ensures
        r@ == lowercase(s@),
        all_ascii(s@) ==> r@ == ascii_lower(s@),
{
    s.to_lowercase()
}

/// Calls `str::to_uppercase`. Its result is named `uppercase` of the input. For input made
/// of ASCII characters only, the Unicode uppercase mapping is the ASCII one (`a`-`z` to
/// `A`-`Z`, all else unchanged), which is stated; nothing is stated of other input.
#[verifier::external_body]
pub(crate) fn str_to_uppercase(s: &str) -> (r: String)
    ensures
        r@ == uppercase(s@),
        all_ascii(s@) ==> r@ == ascii_upper(s@),
{
    s.to_uppercase()
}

} // verus!

verus! {

pub proof fn lemma_split_ws_len(s: Seq<char>)
    ensures
        split_ws(s).len() >= 1,
    decreases s.len(),
{
    if s.len() > 0 {
        lemma_split_ws_len(s.drop_last());
    }
}

/// Splits at every white-space character.
pub fn split_ws_chars(v: &Vec<char>) -> (r: Vec<Vec<char>>)
    ensures
        r.deep_view() == split_ws(v@),
{
    let mut pieces: Vec<Vec<char>> = Vec::new();
    let mut cur: Vec<char> = Vec::new();
    let mut i: usize = 0;
    assert(v@.take(0) =~= Seq::<char>::empty());
    assert(pieces.deep_view().push(cur@) =~= split_ws(v@.take(0)));
    while i < v.len()
        invariant
            i <= v.len(),
            pieces.deep_view().push(cur@) == split_ws(v@.take(i as int)),
        decreases v.len() - i,
    {
        let c = v[i];
        let ghost prev = v@.take(i as int);
        assert(v@.take(i + 1).drop_last() == prev);
        proof {
            lemma_split_ws_len(prev);
        }
        if is_whitespace(c) {
            let done = cur;
            push_piece(&mut pieces, done);
            cur = Vec::new();
            assert(pieces.deep_view().push(cur@) =~= split_ws(v@.take(i + 1)));
        } else {
            cur.push(c);
            assert(pieces.deep_view().push(cur@) =~= split_ws(v@.take(i + 1)));
        }
        i += 1;
    }
    assert(v@.take(v.len() as int) == v@);
    push_piece(&mut pieces, cur);
    pieces
}

/// The pieces joined with `sep` between them.
pub fn join_pieces(ws: &Vec<Vec<char>>, sep: char) -> (r: Vec<char>)
    ensures
        r@ == join_with(ws.deep_view(), sep),
{
    let ghost wv = ws.deep_view();
    let mut out: Vec<char> = Vec::new();
    let mut i: usize = 0;
    assert(wv.take(0) =~= Seq::<Seq<char>>::empty());
    while i < ws.len()
        invariant
            i <= ws.len(),
            wv == ws.deep_view(),
            out@ == join_with(wv.take(i as int), sep),
        decreases ws.len() - i,
    {
        let ghost t = wv.take(i + 1);
        assert(t.drop_last() == wv.take(i as int));
        assert(t.last() == ws@[i as int]@);
        if i > 0 {
            out.push(sep);
        }
        let mut k: usize = 0;
        let ghost base = out@;
        while k < ws[i].len()
            invariant
                i < ws.len(),
                k <= ws@[i as int]@.len(),
                out@ == base + ws@[i as int]@.take(k as int),
            decreases ws@[i as int]@.len() - k,
        {
            out.push(ws[i][k]);
            k += 1;
            assert(out@ =~= base + ws@[i as int]@.take(k as int));
        }
        assert(ws@[i as int]@.take(k as int) == ws@[i as int]@);
        if i == 0 {
            assert(t =~= seq![t.last()]);
            assert(out@ =~= join_with(t, sep));
        } else {
            assert(out@ =~= join_with(t, sep));
        }
        i += 1;
    }
    assert(wv.take(ws.len() as int) == wv);
    out
}

/// The non-empty pieces, in order.
pub fn nonempty_pieces(ps: &Vec<Vec<char>>) -> (r: Vec<Vec<char>>)
    ensures
        r.deep_view() == nonempty_only(ps.deep_view()),
{
    let ghost pv = ps.deep_view();
    let mut out: Vec<Vec<char>> = Vec::new();
    let mut i: usize = 0;
    assert(pv.take(0) =~= Seq::<Seq<char>>::empty());
    while i < ps.len()
        invariant
            i <= ps.len(),
            pv == ps.deep_view(),
            out.deep_view() == nonempty_only(pv.take(i as int)),
        decreases ps.len() - i,
    {
        let ghost t = pv.take(i + 1);
        assert(t.drop_last() == pv.take(i as int));
        assert(t.last() == ps@[i as int]@);
        if ps[i].len() > 0 {
            push_piece(&mut out, ps[i].clone());
        }
        i += 1;
    }
    assert(pv.take(ps.len() as int) == pv);
    out
}

/// The words of a text joined by single spaces.
pub fn collapse_ws_chars(v: &Vec<char>) -> (r: Vec<char>)
    ensures
        r@ == collapse_ws(v@),
{
    let pieces = split_ws_chars(v);
    let ws = nonempty_pieces(&pieces);
    join_pieces(&ws, ' ')
}

/// Strict lexicographic order by character code, as `String` comparison orders.
pub open spec fn lex_lt(a: Seq<char>, b: Seq<char>) -> bool
    decreases a.len(),
{
    if b.len() == 0 {
        false
    } else if a.len() == 0 {
        true
    } else if (a[0] as u32) < (b[0] as u32) {
        true
    } else if (a[0] as u32) > (b[0] as u32) {
        false
    } else {
        lex_lt(a.drop_first(), b.drop_first())
    }
}

/// `a` comes no later than `b` in lexicographic order.
pub open spec fn lex_le(a: Seq<char>, b: Seq<char>) -> bool {
    !lex_lt(b, a)
}

pub proof fn lemma_lex_lt_trans(a: Seq<char>, b: Seq<char>, c: Seq<char>)
    requires
        lex_lt(a, b),
        lex_lt(b, c),
    ensures
        lex_lt(a, c),
    decreases a.len(),
{
    if a.len() > 0 && (a[0] as u32) == (b[0] as u32) && (b[0] as u32) == (c[0] as u32) {
        lemma_lex_lt_trans(a.drop_first(), b.drop_first(), c.drop_first());
    }
}

pub proof fn lemma_lex_lt_irrefl(a: Seq<char>)
    ensures
        !lex_lt(a, a),
    decreases a.len(),
{
    if a.len() > 0 {
        lemma_lex_lt_irrefl(a.drop_first());
    }
}

pub fn lex_lt_chars(a: &Vec<char>, b: &Vec<char>) -> (r: bool)
    ensures
        r == lex_lt(a@, b@),
{
    let mut i: usize = 0;
    assert(a@.skip(0) == a@ && b@.skip(0) == b@);
    while i < a.len() && i < b.len() && (a[i] as u32) == (b[i] as u32)
        invariant
            i <= a.len(),
            i <= b.len(),
            lex_lt(a@, b@) == lex_lt(a@.skip(i as int), b@.skip(i as int)),
        decreases a.len() - i,
    {
        assert(a@.skip(i as int).drop_first() == a@.skip(i + 1));
        assert(b@.skip(i as int).drop_first() == b@.skip(i + 1));
        i += 1;
    }
    if i == b.len() {
        false
    } else if i == a.len() {
        true
    } else {
        (a[i] as u32) < (b[i] as u32)
    }
}

} // verus!

verus! {

/// Inserts a string into a list of strings.
pub fn insert_string(list: &mut Vec<String>, i: usize, s: String)
    requires
        i <= old(list).len(),
    ensures
        final(list).deep_view() == old(list).deep_view().insert(i as int, s@),
        final(list).len() == old(list).len() + 1,
{
    let ghost old_dv = list.deep_view();
    let ghost sv = s@;
    list.insert(i, s);
    assert(list.deep_view() =~= old_dv.insert(i as int, sv));
}

} // verus!
