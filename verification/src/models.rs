//! The records the tracker works on, with their mathematical views.
use vstd::prelude::*;

verus! {

/// A puzzle as listed in the sheet.
#[derive(Debug, Clone)]
pub struct Puzzle {
    pub number: i32,
    pub title: String,
    pub setter: String,
    pub constraints: String,
    pub puzzle_link: String,
    pub video_link: String,
}

pub struct PuzzleView {
    pub number: i32,
    pub title: Seq<char>,
    pub setter: Seq<char>,
    pub constraints: Seq<char>,
    pub puzzle_link: Seq<char>,
    pub video_link: Seq<char>,
}

impl View for Puzzle {
    type V = PuzzleView;

    open spec fn view(&self) -> PuzzleView {
        PuzzleView {
            number: self.number,
            title: self.title@,
            setter: self.setter@,
            constraints: self.constraints@,
            puzzle_link: self.puzzle_link@,
            video_link: self.video_link@,
        }
    }
}

impl Puzzle {
    /// A copy of this puzzle.
    pub fn duplicate(&self) -> (r: Puzzle)
        ensures
            r@ == self@,
    {
        Puzzle {
            number: self.number,
            title: self.title.clone(),
            setter: self.setter.clone(),
            constraints: self.constraints.clone(),
            puzzle_link: self.puzzle_link.clone(),
            video_link: self.video_link.clone(),
        }
    }
}

/// Progress stored for one puzzle.
#[derive(Debug, Clone, Default)]
pub struct ProgressRow {
    pub solved: bool,
    pub skipped: bool,
    pub video_used: Option<String>,
    pub time_seconds: Option<i64>,
}

pub struct ProgressView {
    pub solved: bool,
    pub skipped: bool,
    pub video_used: Option<Seq<char>>,
    pub time_seconds: Option<i64>,
}

impl View for ProgressRow {
    type V = ProgressView;

    open spec fn view(&self) -> ProgressView {
        ProgressView {
            solved: self.solved,
            skipped: self.skipped,
            video_used: self.video_used.deep_view(),
            time_seconds: self.time_seconds,
        }
    }
}

/// A copy of an optional text.
pub fn copy_opt_string(o: &Option<String>) -> (r: Option<String>)
    ensures
        r.deep_view() == o.deep_view(),
{
    match o {
        Some(s) => Some(s.clone()),
        None => None,
    }
}

impl ProgressRow {
    /// A copy of this row.
    pub fn duplicate(&self) -> (r: ProgressRow)
        ensures
            r@ == self@,
    {
        ProgressRow {
            solved: self.solved,
            skipped: self.skipped,
            video_used: copy_opt_string(&self.video_used),
            time_seconds: self.time_seconds,
        }
    }
}

/// A puzzle together with its progress and display fields.
#[derive(Debug, Clone)]
pub struct MergedPuzzle {
    pub base: Puzzle,
    pub solved: bool,
    pub skipped: bool,
    pub video_used: Option<String>,
    pub video_used_label: String,
    pub time_seconds: Option<i64>,
    pub time_formatted: String,
}

pub struct MergedView {
    pub base: PuzzleView,
    pub solved: bool,
    pub skipped: bool,
    pub video_used: Option<Seq<char>>,
    pub video_used_label: Seq<char>,
    pub time_seconds: Option<i64>,
    pub time_formatted: Seq<char>,
}

impl View for MergedPuzzle {
    type V = MergedView;

    open spec fn view(&self) -> MergedView {
        MergedView {
            base: self.base@,
            solved: self.solved,
            skipped: self.skipped,
            video_used: self.video_used.deep_view(),
            video_used_label: self.video_used_label@,
            time_seconds: self.time_seconds,
            time_formatted: self.time_formatted@,
        }
    }
}

impl MergedPuzzle {
    /// A copy of this entry.
    pub fn duplicate(&self) -> (r: MergedPuzzle)
        ensures
            r@ == self@,
    {
        MergedPuzzle {
            base: self.base.duplicate(),
            solved: self.solved,
            skipped: self.skipped,
            video_used: copy_opt_string(&self.video_used),
            video_used_label: self.video_used_label.clone(),
            time_seconds: self.time_seconds,
            time_formatted: self.time_formatted.clone(),
        }
    }
}

/// A catalog line: a merged puzzle and whether it passes the current filters.
#[derive(Debug, Clone)]
pub struct CatalogEntry {
    pub merged: MergedPuzzle,
    pub matches_filter: bool,
}

/// Counts and average over a list of merged puzzles.
#[derive(Debug, Clone)]
pub struct Stats {
    pub total_puzzles: usize,
    pub solved_count: usize,
    pub skipped_count: usize,
    pub active_remaining: usize,
    pub average_seconds: Option<i64>,
    pub average_formatted: String,
    pub timed_count: usize,
}

/// The body of an import request.
#[derive(Debug, Clone)]
pub struct ImportBody {
    pub url: String,
    pub replace_all: Option<bool>,
}

/// A JSON field of a progress update, as far as the update reads it.
#[derive(Debug, Clone)]
pub enum FieldValue {
    /// JSON `null`.
    Null,
    /// A JSON number that fits in `i64`.
    Int(i64),
    /// A JSON string.
    Text(String),
    /// Any other JSON value.
    Other,
}

/// The body of a progress update.
#[derive(Debug, Clone)]
pub struct ProgressBody {
    pub solved: Option<bool>,
    pub skipped: Option<bool>,
    pub active: Option<bool>,
    pub clear_status: Option<bool>,
    pub video_used: Option<FieldValue>,
    pub clear_time: Option<bool>,
    pub time: Option<String>,
    pub time_seconds: Option<FieldValue>,
}

/// Sync bookkeeping shown by the health and state endpoints.
#[derive(Debug, Clone, Default)]
pub struct Meta {
    pub last_sync_at: Option<String>,
    pub last_sync_error: Option<String>,
}

/// Query parameters of the state endpoint.
#[derive(Debug, Clone, Default)]
pub struct StateQuery {
    pub include_text: Option<String>,
    pub exclude_text: Option<String>,
}

/// Path parameters of the progress endpoint.
#[derive(Debug, Clone)]
pub struct ProgressPath {
    pub number: i32,
}

} // verus!
