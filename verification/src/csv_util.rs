//! Sheet CSV: rows as header-to-field maps, puzzles read from rows, and the progress export.
use vstd::prelude::*;
use crate::logic::{format_seconds, format_seconds_spec};
use crate::models::{MergedPuzzle, MergedView, Puzzle, PuzzleView};
use crate::numbers::{parse_i32_chars, parse_i32_spec, push_signed_decimal, signed_decimal};
use crate::text::{chars_of, eq_chars, push_string, string_of, trim, trim_chars};

verus! {

/// One CSV record as a map from header to field; a header given twice keeps its first
/// place and its last field.
#[derive(Debug)]
pub struct CsvRow {
    fields: Vec<(String, String)>,
}

impl View for CsvRow {
    type V = Seq<(Seq<char>, Seq<char>)>;

    closed spec fn view(&self) -> Seq<(Seq<char>, Seq<char>)> {
        self.fields.deep_view()
    }
}

/// The position of the first field with header `k`.
pub open spec fn key_index(f: Seq<(Seq<char>, Seq<char>)>, k: Seq<char>) -> Option<int>
    decreases f.len(),
{
    if f.len() == 0 {
        None
    } else if f[0].0 == k {
        Some(0)
    } else {
        match key_index(f.drop_first(), k) {
            Some(i) => Some(i + 1),
            None => None,
        }
    }
}

/// The field under header `k`.
pub open spec fn row_get(f: Seq<(Seq<char>, Seq<char>)>, k: Seq<char>) -> Option<Seq<char>> {
    match key_index(f, k) {
        Some(i) => Some(f[i].1),
        None => None,
    }
}

/// The field under header `k`, or the empty text.
pub open spec fn row_get_or_empty(f: Seq<(Seq<char>, Seq<char>)>, k: Seq<char>) -> Seq<char> {
    match row_get(f, k) {
        Some(v) => v,
        None => Seq::empty(),
    }
}

/// The map with `k` set to `v`.
pub open spec fn row_insert(f: Seq<(Seq<char>, Seq<char>)>, k: Seq<char>, v: Seq<char>) -> Seq<(Seq<char>, Seq<char>)> {
    match key_index(f, k) {
        Some(i) => f.update(i, (k, v)),
        None => f.push((k, v)),
    }
}

pub proof fn lemma_key_index_bounds(f: Seq<(Seq<char>, Seq<char>)>, k: Seq<char>)
    ensures
        key_index(f, k) matches Some(i) ==> 0 <= i < f.len() && f[i].0 == k && forall|j: int|
            0 <= j < i ==> #[trigger] f[j].0 != k,
        key_index(f, k) is None ==> forall|j: int| 0 <= j < f.len() ==> #[trigger] f[j].0 != k,
    decreases f.len(),
{
    if f.len() > 0 {
        lemma_key_index_bounds(f.drop_first(), k);
        assert forall|j: int| 1 <= j < f.len() implies #[trigger] f[j].0 == f.drop_first()[j - 1].0 by {}
    }
}

/// No header occurs twice.
pub open spec fn distinct_keys(f: Seq<(Seq<char>, Seq<char>)>) -> bool {
    forall|i: int, j: int| 0 <= i < j < f.len() ==> (#[trigger] f[i]).0 != (#[trigger] f[j]).0
}

impl CsvRow {
    /// A row never holds a header twice.
    #[verifier::type_invariant]
    spec fn keys_distinct(self) -> bool {
        distinct_keys(self.fields.deep_view())
    }

    /// The empty map.
    pub fn new() -> (r: CsvRow)
        ensures
            r@ == Seq::<(Seq<char>, Seq<char>)>::empty(),
            distinct_keys(r@),
    {
        CsvRow { fields: Vec::new() }
    }

    fn find_key(&self, key: &Vec<char>) -> (r: Option<usize>)
        ensures
            self@.len() == self.fields.len(),
            r matches Some(i) ==> i < self.fields.len() && key_index(self@, key@) == Some(i as int),
            r is None ==> key_index(self@, key@) is None,
    {
        proof {
            lemma_key_index_bounds(self@, key@);
        }
        assert(self@.len() == self.fields.len());
        let mut i: usize = 0;
        while i < self.fields.len()
            invariant
                self@.len() == self.fields.len(),
                i <= self.fields.len(),
                forall|j: int| 0 <= j < i ==> (#[trigger] self@[j]).0 != key@,
            decreases self.fields.len() - i,
        {
            let k = chars_of(self.fields[i].0.as_str());
            assert(self@[i as int] == self.fields@[i as int].deep_view());
            if eq_chars(&k, key) {
                proof {
                    lemma_key_index_bounds(self@, key@);
                }
                assert(self@[i as int].0 == key@);
                assert(key_index(self@, key@) == Some(i as int));
                return Some(i);
            }
            i += 1;
        }
        proof {
            lemma_key_index_bounds(self@, key@);
        }
        None
    }

    /// Sets the field under `key` (replacing an earlier one in its place).
    pub fn insert(&mut self, key: String, value: String)
        ensures
            final(self)@ == row_insert(old(self)@, key@, value@),
            distinct_keys(final(self)@),
    {
        proof {
            use_type_invariant(&*self);
        }
        let kv = chars_of(key.as_str());
        let ghost before = self@;
        let ghost kval = (key@, value@);
        proof {
            lemma_key_index_bounds(before, key@);
        }
        match self.find_key(&kv) {
            Some(i) => {
                let mut fields: Vec<(String, String)> = Vec::new();
                std::mem::swap(&mut fields, &mut self.fields);
                fields.set(i, (key, value));
                assert(fields.deep_view() =~= before.update(i as int, kval));
                self.fields = fields;
            },
            None => {
                let mut fields: Vec<(String, String)> = Vec::new();
                std::mem::swap(&mut fields, &mut self.fields);
                fields.push((key, value));
                assert(fields.deep_view() =~= before.push(kval));
                self.fields = fields;
            },
        }
    }

    /// The field under `key`.
    pub fn get(&self, key: &str) -> (r: Option<&String>)
        ensures
            r matches Some(s) ==> row_get(self@, key@) == Some(s@),
            r is None ==> row_get(self@, key@) is None,
            distinct_keys(self@),
    {
        proof {
            use_type_invariant(self);
        }
        let kv = chars_of(key);
        match self.find_key(&kv) {
            Some(i) => {
                assert(self@[i as int] == self.fields@[i as int].deep_view());
                Some(&self.fields[i].1)
            },
            None => None,
        }
    }

    /// The number of fields.
    pub fn len(&self) -> (n: usize)
        ensures
            n == self@.len(),
            distinct_keys(self@),
    {
        proof {
            use_type_invariant(self);
        }
        self.fields.len()
    }

    /// The header and field at position `i`.
    pub fn field_at(&self, i: usize) -> (r: (&String, &String))
        requires
            i < self@.len(),
        ensures
            r.0@ == self@[i as int].0,
            r.1@ == self@[i as int].1,
    {
        assert(self@[i as int] == self.fields@[i as int].deep_view());
        (&self.fields[i].0, &self.fields[i].1)
    }
}

/// The field under `key`, or the empty text.
pub fn get_or_empty(row: &CsvRow, key: &str) -> (r: String)
    ensures
        r@ == row_get_or_empty(row@, key@),
{
    match row.get(key) {
        Some(s) => s.clone(),
        None => String::new(),
    }
}

} // verus!

verus! {

/// A record as a row: each header (in order) set to the field at its position, for the
/// positions the record has.
pub open spec fn row_from(headers: Seq<Seq<char>>, rec: Seq<Seq<char>>) -> Seq<(Seq<char>, Seq<char>)>
    decreases headers.len(),
{
    if headers.len() == 0 {
        Seq::empty()
    } else {
        let r = row_from(headers.drop_last(), rec);
        let i = headers.len() - 1;
        if i < rec.len() {
            row_insert(r, headers[i], rec[i])
        } else {
            r
        }
    }
}

/// All records as rows.
pub open spec fn rows_from(headers: Seq<Seq<char>>, recs: Seq<Seq<Seq<char>>>) -> Seq<Seq<(Seq<char>, Seq<char>)>>
    decreases recs.len(),
{
    if recs.len() == 0 {
        Seq::empty()
    } else {
        rows_from(headers, recs.drop_last()).push(row_from(headers, recs.last()))
    }
}

/// The views of a list of rows.
pub open spec fn row_views(rows: Seq<CsvRow>) -> Seq<Seq<(Seq<char>, Seq<char>)>>
    decreases rows.len(),
{
    if rows.len() == 0 {
        Seq::empty()
    } else {
        row_views(rows.drop_last()).push(rows.last()@)
    }
}

/// One record as a row.
pub fn record_to_row(headers: &Vec<String>, rec: &Vec<String>) -> (r: CsvRow)
    ensures
        r@ == row_from(headers.deep_view(), rec.deep_view()),
        distinct_keys(r@),
{
    let ghost hv = headers.deep_view();
    let ghost rv = rec.deep_view();
    let mut row = CsvRow::new();
    let mut i: usize = 0;
    assert(hv.take(0) =~= Seq::<Seq<char>>::empty());
    while i < headers.len()
        invariant
            i <= headers.len(),
            hv == headers.deep_view(),
            rv == rec.deep_view(),
            row@ == row_from(hv.take(i as int), rv),
        decreases headers.len() - i,
    {
        assert(hv.take(i + 1).drop_last() == hv.take(i as int));
        assert(hv.take(i + 1)[i as int] == headers@[i as int]@);
        if i < rec.len() {
            assert(rv[i as int] == rec@[i as int]@);
            row.insert(headers[i].clone(), rec[i].clone());
        }
        i += 1;
    }
    assert(hv.take(headers.len() as int) == hv);
    proof {
        use_type_invariant(&row);
    }
    row
}

/// Table contents as rows keyed by the header record.
pub fn records_from_table(headers: &Vec<String>, records: &Vec<Vec<String>>) -> (r: Vec<CsvRow>)
    ensures
        row_views(r@) == rows_from(headers.deep_view(), records.deep_view()),
{
    let ghost recs = records.deep_view();
    let mut out: Vec<CsvRow> = Vec::new();
    let mut i: usize = 0;
    assert(recs.take(0) =~= Seq::<Seq<Seq<char>>>::empty());
    while i < records.len()
        invariant
            i <= records.len(),
            recs == records.deep_view(),
            out.len() == i,
            row_views(out@) == rows_from(headers.deep_view(), recs.take(i as int)),
        decreases records.len() - i,
    {
        assert(recs.take(i + 1).drop_last() == recs.take(i as int));
        assert(recs[i as int] == records@[i as int].deep_view());
        let row = record_to_row(headers, &records[i]);
        let ghost before = out@;
        out.push(row);
        assert(out@.drop_last() == before);
        i += 1;
    }
    assert(recs.take(records.len() as int) == recs);
    out
}

/// What reading a text as CSV gives, when it can be read: the header record and the
/// records after it. The options are those of `parse_csv_records`.
pub uninterp spec fn csv_table(text: Seq<char>) -> Option<(Seq<Seq<char>>, Seq<Seq<Seq<char>>>)>;

#[verifier::external_type_specification]
#[verifier::external_body]
pub struct ExCsvError(csv::Error);

/// Reads `text` with a `csv::ReaderBuilder` set to `flexible(true)` and
/// `trim(csv::Trim::All)`: `headers()` gives the first record and `into_records()` the
/// rest, each field copied to a `String`. Claimed: the outcome depends on the text alone,
/// named `csv_table` (`None` for an error); nothing is stated of the CSV grammar itself.
#[verifier::external_body]
fn read_csv_table(text: &str) -> (r: Result<(Vec<String>, Vec<Vec<String>>), csv::Error>)
    ensures
        r matches Ok((h, recs)) ==> csv_table(text@) == Some((h.deep_view(), recs.deep_view())),
        r is Err ==> csv_table(text@) is None,
{
    let mut rdr = csv::ReaderBuilder::new().flexible(true).trim(csv::Trim::All).from_reader(
        text.as_bytes(),
    );
    let headers: Vec<String> = rdr.headers()?.iter().map(|h| h.to_string()).collect();
    let mut records: Vec<Vec<String>> = Vec::new();
    for rec in rdr.into_records() {
        records.push(rec?.iter().map(|f| f.to_string()).collect());
    }
    Ok((headers, records))
}

/// The message of a `csv::Error` (its `Display` text); nothing is stated of it.
#[verifier::external_body]
fn csv_error_text(e: &csv::Error) -> String {
    e.to_string()
}

/// Why reading or writing CSV failed.
#[derive(Debug, Clone)]
pub struct CsvError {
    pub message: String,
}

/// Reads a CSV text whose first record names the columns; each later record becomes a row
/// keyed by those names. Short records leave later columns out; fields are trimmed.
pub fn parse_csv_records(text: &str) -> (r: Result<Vec<CsvRow>, CsvError>)
    ensures
        r matches Ok(rows) ==> csv_table(text@) matches Some((h, recs)) && row_views(rows@)
            == rows_from(h, recs),
        r is Err ==> csv_table(text@) is None,
{
    match read_csv_table(text) {
        Ok((headers, records)) => Ok(records_from_table(&headers, &records)),
        Err(e) => Err(CsvError { message: csv_error_text(&e) }),
    }
}

} // verus!

verus! {

/// The puzzle a sheet row describes: its `Puzzle Number` (trimmed) must read as an `i32`;
/// the other columns are copied, missing ones empty.
pub open spec fn row_puzzle(f: Seq<(Seq<char>, Seq<char>)>) -> Option<PuzzleView> {
    match parse_i32_spec(trim(row_get_or_empty(f, "Puzzle Number"@))) {
        Some(n) => Some(
            PuzzleView {
                number: n as i32,
                title: row_get_or_empty(f, "Title"@),
                setter: row_get_or_empty(f, "Setter"@),
                constraints: row_get_or_empty(f, "Constraints"@),
                puzzle_link: row_get_or_empty(f, "Puzzle Link"@),
                video_link: row_get_or_empty(f, "Video Link"@),
            },
        ),
        None => None,
    }
}

/// Reads a puzzle from a sheet row; `None` when the puzzle number is missing or not an `i32`.
pub fn normalize_row(row: &CsvRow) -> (r: Option<Puzzle>)
    ensures
        r matches Some(p) ==> row_puzzle(row@) == Some(p@),
        r is None ==> row_puzzle(row@) is None,
{
    let num_text = get_or_empty(row, "Puzzle Number");
    let num_chars = trim_chars(&chars_of(num_text.as_str()));
    let number = match parse_i32_chars(&num_chars) {
        Some(n) => n,
        None => return None,
    };
    Some(
        Puzzle {
            number,
            title: get_or_empty(row, "Title"),
            setter: get_or_empty(row, "Setter"),
            constraints: get_or_empty(row, "Constraints"),
            puzzle_link: get_or_empty(row, "Puzzle Link"),
            video_link: get_or_empty(row, "Video Link"),
        },
    )
}

/// The puzzles of the rows that describe one, in row order.
pub open spec fn row_puzzles(rows: Seq<Seq<(Seq<char>, Seq<char>)>>) -> Seq<PuzzleView>
    decreases rows.len(),
{
    if rows.len() == 0 {
        Seq::empty()
    } else {
        let r = row_puzzles(rows.drop_last());
        match row_puzzle(rows.last()) {
            Some(p) => r.push(p),
            None => r,
        }
    }
}

/// The puzzles of a list numbered `k`, in order.
pub open spec fn numbered(s: Seq<PuzzleView>, k: i32) -> Seq<PuzzleView>
    decreases s.len(),
{
    if s.len() == 0 {
        s
    } else {
        let r = numbered(s.drop_last(), k);
        if s.last().number == k {
            r.push(s.last())
        } else {
            r
        }
    }
}

pub open spec fn sorted_by_number(s: Seq<PuzzleView>) -> bool {
    forall|i: int, j: int| 0 <= i < j < s.len() ==> s[i].number <= s[j].number
}

/// `t` is `s` sorted stably by number: in number order, and the puzzles of each number in
/// the order they had.
pub open spec fn stable_sort_of(t: Seq<PuzzleView>, s: Seq<PuzzleView>) -> bool {
    sorted_by_number(t) && forall|k: i32| #[trigger] numbered(t, k) == numbered(s, k)
}

pub open spec fn puzzle_views(s: Seq<Puzzle>) -> Seq<PuzzleView>
    decreases s.len(),
{
    if s.len() == 0 {
        Seq::empty()
    } else {
        puzzle_views(s.drop_last()).push(s.last()@)
    }
}

pub proof fn lemma_puzzle_views_index(s: Seq<Puzzle>)
    ensures
        puzzle_views(s).len() == s.len(),
        forall|i: int| 0 <= i < s.len() ==> #[trigger] puzzle_views(s)[i] == s[i]@,
    decreases s.len(),
{
    if s.len() > 0 {
        lemma_puzzle_views_index(s.drop_last());
    }
}

pub proof fn lemma_puzzle_views_ext(a: Seq<Puzzle>, b: Seq<PuzzleView>)
    requires
        a.len() == b.len(),
        forall|i: int| 0 <= i < a.len() ==> a[i]@ == b[i],
    ensures
        puzzle_views(a) == b,
{
    lemma_puzzle_views_index(a);
    assert(puzzle_views(a) =~= b);
}

pub proof fn lemma_numbered_concat(a: Seq<PuzzleView>, b: Seq<PuzzleView>, k: i32)
    ensures
        numbered(a + b, k) == numbered(a, k) + numbered(b, k),
    decreases b.len(),
{
    if b.len() == 0 {
        assert(a + b =~= a);
        assert(numbered(a, k) + numbered(b, k) =~= numbered(a, k));
    } else {
        lemma_numbered_concat(a, b.drop_last(), k);
        assert((a + b).drop_last() =~= a + b.drop_last());
        assert((a + b).last() == b.last());
        if b.last().number == k {
            assert(numbered(a, k) + numbered(b, k) =~= (numbered(a, k) + numbered(b.drop_last(), k)).push(b.last()));
        } else {
            assert(numbered(a, k) + numbered(b, k) =~= numbered(a, k) + numbered(b.drop_last(), k));
        }
    }
}

pub proof fn lemma_numbered_none(s: Seq<PuzzleView>, k: i32)
    requires
        forall|i: int| 0 <= i < s.len() ==> s[i].number != k,
    ensures
        numbered(s, k) == Seq::<PuzzleView>::empty(),
    decreases s.len(),
{
    if s.len() > 0 {
        lemma_numbered_none(s.drop_last(), k);
    }
}

proof fn lemma_numbered_single(x: PuzzleView, k: i32)
    ensures
        numbered(seq![x], k) == (if x.number == k { seq![x] } else { Seq::<PuzzleView>::empty() }),
{
    assert(seq![x].drop_last() =~= Seq::<PuzzleView>::empty());
    reveal_with_fuel(numbered, 2);
    if x.number == k {
        assert(numbered(seq![x], k) =~= seq![x]);
    } else {
        assert(numbered(seq![x], k) =~= Seq::<PuzzleView>::empty());
    }
}

/// Sorts puzzles by number, keeping the order of puzzles with the same number.
pub fn sort_by_number(v: Vec<Puzzle>) -> (r: Vec<Puzzle>)
    ensures
        stable_sort_of(puzzle_views(r@), puzzle_views(v@)),
{
    let ghost orig = v@;
    let mut rest = v;
    let mut out: Vec<Puzzle> = Vec::new();
    proof {
        lemma_puzzle_views_index(orig);
        assert(orig.skip(orig.len() as int) =~= Seq::<Puzzle>::empty());
    }
    while rest.len() > 0
        invariant
            rest@ == orig.take(rest.len() as int),
            rest.len() <= orig.len(),
            sorted_by_number(puzzle_views(out@)),
            forall|k: i32| #[trigger] numbered(puzzle_views(out@), k) == numbered(
                puzzle_views(orig.skip(rest.len() as int)),
                k,
            ),
        decreases rest.len(),
    {
        let ghost before = out@;
        let ghost n = rest.len();
        let x = rest.pop().unwrap();
        assert(x == orig[n - 1]);
        let mut pos: usize = 0;
        proof {
            lemma_puzzle_views_index(before);
        }
        while pos < out.len() && out[pos].number < x.number
            invariant
                out@ == before,
                pos <= out.len(),
                forall|j: int| 0 <= j < pos ==> out@[j].number < x.number,
            decreases out.len() - pos,
        {
            pos += 1;
        }
        out.insert(pos, x);
        proof {
            let bv = puzzle_views(before);
            let nv = puzzle_views(out@);
            lemma_puzzle_views_index(out@);
            lemma_puzzle_views_index(before);
            assert(nv =~= bv.take(pos as int) + seq![x@] + bv.skip(pos as int));
            assert forall|i: int, j: int| 0 <= i < j < nv.len() implies nv[i].number <= nv[j].number by {
                if j < pos {
                } else if j == pos {
                } else if i < pos {
                    assert(nv[j] == bv[j - 1]);
                } else if i == pos {
                    assert(nv[j] == bv[j - 1]);
                    assert(bv[pos as int].number >= x.number);
                    assert(bv[pos as int].number <= bv[j - 1].number);
                } else {
                    assert(nv[i] == bv[i - 1]);
                    assert(nv[j] == bv[j - 1]);
                }
            }
            let old_skip = orig.skip(n as int);
            let new_skip = orig.skip(n - 1);
            assert(new_skip =~= seq![x] + old_skip);
            lemma_puzzle_views_index(old_skip);
            lemma_puzzle_views_ext(seq![x] + old_skip, seq![x@] + puzzle_views(old_skip));
            assert forall|k: i32| #[trigger] numbered(nv, k) == numbered(puzzle_views(new_skip), k) by {
                lemma_numbered_concat(bv.take(pos as int) + seq![x@], bv.skip(pos as int), k);
                lemma_numbered_concat(bv.take(pos as int), seq![x@], k);
                lemma_numbered_concat(bv.take(pos as int), bv.skip(pos as int), k);
                assert(bv.take(pos as int) + bv.skip(pos as int) =~= bv);
                lemma_numbered_concat(seq![x@], puzzle_views(old_skip), k);
                lemma_numbered_single(x@, k);
                if x.number == k {
                    lemma_numbered_none(bv.take(pos as int), k);
                    assert(numbered(bv, k) == numbered(bv.skip(pos as int), k)) by {
                        assert(Seq::<PuzzleView>::empty() + numbered(bv.skip(pos as int), k)
                            =~= numbered(bv.skip(pos as int), k));
                    }
                    assert(numbered(nv, k) =~= seq![x@] + numbered(bv, k));
                } else {
                    assert(numbered(nv, k) =~= numbered(bv, k));
                    assert(numbered(puzzle_views(new_skip), k) =~= numbered(puzzle_views(old_skip), k));
                }
            }
            assert(rest@ == orig.take(rest.len() as int));
        }
    }
    proof {
        assert(orig.skip(0) == orig);
    }
    out
}

} // verus!

verus! {

/// The puzzles of the rows that describe one, in row order.
pub fn puzzles_of_rows(rows: &Vec<CsvRow>) -> (r: Vec<Puzzle>)
    ensures
        puzzle_views(r@) == row_puzzles(row_views(rows@)),
{
    let mut out: Vec<Puzzle> = Vec::new();
    let mut i: usize = 0;
    assert(rows@.take(0) =~= Seq::<CsvRow>::empty());
    while i < rows.len()
        invariant
            i <= rows.len(),
            puzzle_views(out@) == row_puzzles(row_views(rows@.take(i as int))),
        decreases rows.len() - i,
    {
        assert(rows@.take(i + 1).drop_last() == rows@.take(i as int));
        let ghost rv = row_views(rows@.take(i + 1));
        assert(rv == row_views(rows@.take(i as int)).push(rows@[i as int]@));
        assert(rv.drop_last() == row_views(rows@.take(i as int)));
        assert(rv.last() == rows@[i as int]@);
        let ghost before = out@;
        match normalize_row(&rows[i]) {
            Some(p) => {
                let ghost pv = p@;
                out.push(p);
                assert(out@.drop_last() == before);
                assert(out@.last()@ == pv);
            },
            None => {},
        }
        i += 1;
    }
    assert(rows@.take(rows.len() as int) == rows@);
    out
}

/// The puzzles listed in a sheet CSV, sorted stably by number; rows without a valid number
/// are left out.
pub fn puzzles_from_csv(text: &str) -> (r: Result<Vec<Puzzle>, CsvError>)
    ensures
        r matches Ok(ps) ==> csv_table(text@) matches Some((h, recs)) && stable_sort_of(
            puzzle_views(ps@),
            row_puzzles(rows_from(h, recs)),
        ),
        r matches Err(e) ==> csv_table(text@) is None && e.message@ == "csv parse"@,
{
    let rows = match parse_csv_records(text) {
        Ok(rows) => rows,
        Err(_) => return Err(CsvError { message: "csv parse".to_owned() }),
    };
    let found = puzzles_of_rows(&rows);
    Ok(sort_by_number(found))
}

} // verus!

verus! {

/// The header record of the progress export.
pub open spec fn export_header() -> Seq<Seq<char>> {
    seq![
        "Puzzle Number"@,
        "Title"@,
        "Setter"@,
        "Constraints"@,
        "Puzzle Link"@,
        "Video Link"@,
        "Solved"@,
        "Time (Include Hour, like 0:04:50)"@,
        "Skipped"@,
        "Video Used"@,
    ]
}

pub open spec fn flag_text(b: bool) -> Seq<char> {
    if b {
        "TRUE"@
    } else {
        "FALSE"@
    }
}

/// The export record of one merged puzzle.
pub open spec fn export_record(p: MergedView) -> Seq<Seq<char>> {
    seq![
        signed_decimal(p.base.number as int),
        p.base.title,
        p.base.setter,
        p.base.constraints,
        p.base.puzzle_link,
        p.base.video_link,
        flag_text(p.solved),
        match p.time_seconds {
            Some(t) => format_seconds_spec(t as int),
            None => Seq::empty(),
        },
        flag_text(p.skipped),
        match p.video_used {
            Some(v) => v,
            None => Seq::empty(),
        },
    ]
}

/// The export records of a list of merged puzzles.
pub open spec fn export_records(ms: Seq<MergedPuzzle>) -> Seq<Seq<Seq<char>>>
    decreases ms.len(),
{
    if ms.len() == 0 {
        Seq::empty()
    } else {
        export_records(ms.drop_last()).push(export_record(ms.last()@))
    }
}

/// The text a `csv::Writer` built by `csv::WriterBuilder::new()` produces for the given
/// records, in order.
pub uninterp spec fn csv_text(records: Seq<Seq<Seq<char>>>) -> Seq<char>;

/// Each field of a record trimmed.
pub open spec fn trim_fields(rec: Seq<Seq<char>>) -> Seq<Seq<char>> {
    Seq::new(rec.len(), |j: int| trim(rec[j]))
}

/// Each field of each record trimmed.
pub open spec fn trim_records(recs: Seq<Seq<Seq<char>>>) -> Seq<Seq<Seq<char>>> {
    Seq::new(recs.len(), |i: int| trim_fields(recs[i]))
}

/// Records whose written text the reader of `parse_csv_records` reads back field by field:
/// at least two fields each, all of the same count, and no byte order mark at the very
/// start (the reader drops it).
pub open spec fn csv_round_trips(recs: Seq<Seq<Seq<char>>>) -> bool {
    &&& recs.len() >= 1
    &&& recs[0].len() >= 2
    &&& forall|i: int| 0 <= i < recs.len() ==> (#[trigger] recs[i]).len() == recs[0].len()
    &&& !(recs[0][0].len() > 0 && recs[0][0][0] == '\u{feff}')
}

/// The step of writing CSV that failed.
#[derive(Debug, Clone, Copy)]
pub enum CsvStage {
    Header,
    Row,
    Finish,
    Utf8,
}

/// Writes `header` then each of `rows` with a `csv::Writer` from `csv::WriterBuilder::new()`
/// into a byte buffer, takes the buffer with `into_inner` and reads it with
/// `String::from_utf8`. Claimed: on success the text depends on the records alone, named
/// `csv_text`; when every row has as many fields as the header, it succeeds (the writer,
/// not flexible, refuses only a record whose field count differs from the first one's;
/// writing and flushing into a `Vec<u8>` cannot fail; the bytes are the fields' UTF-8 and
/// ASCII separators and quotes). Of a failure only the step is told. Also claimed: when
/// `csv_round_trips` holds of the records, the text reads back as the header and the rows
/// with every field trimmed (the writer quotes every field holding a comma, a quote, `\r`
/// or `\n` and doubles its quotes; the reader undoes that, then trims each field with
/// `str::trim` and drops a byte order mark at the start).
#[verifier::external_body]
fn write_csv(header: &Vec<String>, rows: &Vec<Vec<String>>) -> (r: Result<String, CsvStage>)
    ensures
        r matches Ok(s) ==> s@ == csv_text(seq![header.deep_view()] + rows.deep_view()),
        r matches Ok(s) ==> (csv_round_trips(seq![header.deep_view()] + rows.deep_view()) ==> csv_table(s@)
            == Some((trim_fields(header.deep_view()), trim_records(rows.deep_view())))),
        (forall|i: int| 0 <= i < rows.len() ==> #[trigger] rows[i].len() == header.len()) ==> r is Ok,
{
    let mut w = csv::WriterBuilder::new().from_writer(Vec::new());
    if w.write_record(header).is_err() {
        return Err(CsvStage::Header);
    }
    for row in rows {
        if w.write_record(row).is_err() {
            return Err(CsvStage::Row);
        }
    }
    let buf = match w.into_inner() {
        Ok(b) => b,
        Err(_) => return Err(CsvStage::Finish),
    };
    String::from_utf8(buf).map_err(|_| CsvStage::Utf8)
}

/// The export record of one merged puzzle, as strings.
pub fn export_record_of(p: &MergedPuzzle) -> (r: Vec<String>)
    ensures
        r.deep_view() == export_record(p@),
        r.len() == 10,
        r@[6]@ == (if p.solved {
            "TRUE"@
        } else {
            "FALSE"@
        }),
        r@[8]@ == (if p.skipped {
            "TRUE"@
        } else {
            "FALSE"@
        }),
{
    let mut num: Vec<char> = Vec::new();
    push_signed_decimal(&mut num, p.base.number as i64);
    let time = match p.time_seconds {
        Some(t) => format_seconds(t),
        None => String::new(),
    };
    let video = match &p.video_used {
        Some(v) => v.clone(),
        None => String::new(),
    };
    let solved = if p.solved {
        "TRUE".to_owned()
    } else {
        "FALSE".to_owned()
    };
    let skipped = if p.skipped {
        "TRUE".to_owned()
    } else {
        "FALSE".to_owned()
    };
    let mut r: Vec<String> = Vec::new();
    push_string(&mut r, string_of(&num));
    push_string(&mut r, p.base.title.clone());
    push_string(&mut r, p.base.setter.clone());
    push_string(&mut r, p.base.constraints.clone());
    push_string(&mut r, p.base.puzzle_link.clone());
    push_string(&mut r, p.base.video_link.clone());
    push_string(&mut r, solved);
    push_string(&mut r, time);
    push_string(&mut r, skipped);
    push_string(&mut r, video);
    assert(r.deep_view() =~= export_record(p@));
    r
}

/// The header record of the progress export, as strings.
pub fn export_header_strings() -> (r: Vec<String>)
    ensures
        r.deep_view() == export_header(),
{
    let mut r: Vec<String> = Vec::new();
    push_string(&mut r, "Puzzle Number".to_owned());
    push_string(&mut r, "Title".to_owned());
    push_string(&mut r, "Setter".to_owned());
    push_string(&mut r, "Constraints".to_owned());
    push_string(&mut r, "Puzzle Link".to_owned());
    push_string(&mut r, "Video Link".to_owned());
    push_string(&mut r, "Solved".to_owned());
    push_string(&mut r, "Time (Include Hour, like 0:04:50)".to_owned());
    push_string(&mut r, "Skipped".to_owned());
    push_string(&mut r, "Video Used".to_owned());
    assert(r.deep_view() =~= export_header());
    r
}

/// The progress of every puzzle as CSV for a spreadsheet import: puzzle columns, `Solved`,
/// the time as `h:mm:ss`, `Skipped` and `Video Used`, one record per puzzle in order.
pub fn progress_export_csv(merged: &[MergedPuzzle]) -> (r: Result<String, CsvError>)
    ensures
        r is Ok,
        r matches Ok(s) ==> s@ == csv_text(seq![export_header()] + export_records(merged@)),
        r matches Ok(s) ==> csv_table(s@) == Some((export_header(), trim_records(export_records(merged@)))),
{
    let header = export_header_strings();
    assert(header.len() == header.deep_view().len());
    let mut rows: Vec<Vec<String>> = Vec::new();
    let mut i: usize = 0;
    assert(merged@.take(0) =~= Seq::<MergedPuzzle>::empty());
    while i < merged.len()
        invariant
            i <= merged.len(),
            header.len() == 10,
            rows.deep_view() == export_records(merged@.take(i as int)),
            forall|k: int| 0 <= k < rows.len() ==> #[trigger] rows[k].len() == 10,
        decreases merged.len() - i,
    {
        assert(merged@.take(i + 1).drop_last() == merged@.take(i as int));
        let rec = export_record_of(&merged[i]);
        assert(rec.len() == rec.deep_view().len());
        let ghost before = rows.deep_view();
        let ghost rv = rec.deep_view();
        rows.push(rec);
        assert(rows.deep_view() =~= before.push(rv));
        i += 1;
    }
    assert(merged@.take(merged.len() as int) == merged@);
    proof {
        crate::roundtrip_laws::lemma_export_round_trips(merged@);
    }
    match write_csv(&header, &rows) {
        Ok(s) => Ok(s),
        Err(st) => {
            let message = match st {
                CsvStage::Header => "csv header".to_owned(),
                CsvStage::Row => "csv row".to_owned(),
                CsvStage::Finish => "csv finish".to_owned(),
                CsvStage::Utf8 => "csv utf8".to_owned(),
            };
            Err(CsvError { message })
        },
    }
}

} // verus!

verus! {

pub proof fn lemma_rows_from_len(rows: Seq<CsvRow>, h: Seq<Seq<char>>, recs: Seq<Seq<Seq<char>>>)
    requires
        row_views(rows) == rows_from(h, recs),
    ensures
        rows.len() == recs.len(),
    decreases recs.len(),
{
    lemma_row_views_len(rows);
    lemma_rows_from_len_spec(h, recs);
}

pub proof fn lemma_row_views_len(rows: Seq<CsvRow>)
    ensures
        row_views(rows).len() == rows.len(),
    decreases rows.len(),
{
    if rows.len() > 0 {
        lemma_row_views_len(rows.drop_last());
    }
}

pub proof fn lemma_rows_from_len_spec(h: Seq<Seq<char>>, recs: Seq<Seq<Seq<char>>>)
    ensures
        rows_from(h, recs).len() == recs.len(),
    decreases recs.len(),
{
    if recs.len() > 0 {
        lemma_rows_from_len_spec(h, recs.drop_last());
    }
}

} // verus!
