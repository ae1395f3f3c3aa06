//! The operations offered to transports: their request and response shapes,
//! the capability values they run on, and the decisions each makes around the
//! extraction engine.
use vstd::prelude::*;
use crate::config::Config;
use crate::dates::{date_range, range_from, valid_date, validate_date, MAX_RANGE_DAYS};
use crate::outline::{Heading, HeadingMatch, Section};
use crate::tags::{TagCount, TaggedFile};
use crate::text::{seq_lt, string_views};
use std::sync::Arc;

verus! {

/// A capability offered through every transport.
pub trait Capability {
    /// Unique identifier of the capability.
    fn id(&self) -> &'static str;

    /// What the capability provides.
    fn description(&self) -> &'static str;
}

// ---- files ----

#[derive(Debug)]
pub struct ListFilesRequest {
    pub path: Option<String>,
    pub subpath: Option<String>,
    pub max_depth: Option<usize>,
    pub include_sizes: Option<bool>,
}

#[derive(Debug)]
pub struct ListFilesResponse {
    pub visual_tree: String,
    pub total_files: usize,
    pub total_directories: usize,
}

#[derive(Debug)]
pub struct ReadFileResult {
    pub file_path: String,
    pub file_name: String,
    pub success: bool,
    pub content: Option<String>,
    pub error: Option<String>,
}

#[derive(Debug)]
pub struct ReadFilesResponse {
    pub files: Vec<ReadFileResult>,
    pub total_requested: usize,
    pub success_count: usize,
    pub failure_count: usize,
}

#[derive(Debug)]
pub struct ReadFilesRequest {
    pub vault_path: Option<String>,
    pub file_paths: Vec<String>,
    pub continue_on_error: Option<bool>,
}

/// Listing and reading files of a vault.
pub struct FileCapability {
    pub base_path: String,
    pub config: Arc<Config>,
}

impl FileCapability {
    pub fn new(base_path: String, config: Arc<Config>) -> (r: Self)
        ensures
            r.base_path == base_path,
            r.config == config,
    {
        FileCapability { base_path, config }
    }
}

pub struct ListFilesOperation {
    pub capability: Arc<FileCapability>,
}

impl ListFilesOperation {
    pub fn new(capability: Arc<FileCapability>) -> (r: Self)
        ensures
            r.capability == capability,
    {
        ListFilesOperation { capability }
    }
}

pub struct ReadFilesOperation {
    pub capability: Arc<FileCapability>,
}

impl ReadFilesOperation {
    pub fn new(capability: Arc<FileCapability>) -> (r: Self)
        ensures
            r.capability == capability,
    {
        ReadFilesOperation { capability }
    }
}

// ---- daily notes ----

#[derive(Debug)]
pub struct GetDailyNoteRequest {
    pub vault_path: Option<String>,
    pub date: String,
}

#[derive(Debug)]
pub struct GetDailyNoteResponse {
    pub found: bool,
    pub date: String,
    pub file_path: Option<String>,
    pub file_name: Option<String>,
    pub content: Option<String>,
}

#[derive(Debug)]
pub struct SearchDailyNotesRequest {
    pub vault_path: Option<String>,
    pub start_date: Option<String>,
    pub end_date: Option<String>,
    pub limit: Option<usize>,
    pub sort: Option<String>,
    pub include_content: Option<bool>,
}

#[derive(Debug)]
pub struct SearchDailyNotesResponse {
    pub notes: Vec<DailyNoteResult>,
    pub total_count: usize,
    pub dates_searched: usize,
}

#[derive(Debug)]
pub struct DailyNoteResult {
    pub date: String,
    pub file_path: String,
    pub file_name: String,
    pub content: Option<String>,
    pub error: Option<String>,
}

/// Daily notes of a vault, found by date.
pub struct DailyNoteCapability {
    pub base_path: String,
    pub config: Arc<Config>,
    pub file_capability: Arc<FileCapability>,
}

impl DailyNoteCapability {
    pub fn new(base_path: String, config: Arc<Config>, file_capability: Arc<FileCapability>) -> (r:
        Self)
        ensures
            r.base_path == base_path,
            r.config == config,
            r.file_capability == file_capability,
    {
        DailyNoteCapability { base_path, config, file_capability }
    }
}

pub struct GetDailyNoteOperation {
    pub capability: Arc<DailyNoteCapability>,
}

impl GetDailyNoteOperation {
    pub fn new(capability: Arc<DailyNoteCapability>) -> (r: Self)
        ensures
            r.capability == capability,
    {
        GetDailyNoteOperation { capability }
    }
}

pub struct SearchDailyNotesOperation {
    pub capability: Arc<DailyNoteCapability>,
}

impl SearchDailyNotesOperation {
    pub fn new(capability: Arc<DailyNoteCapability>) -> (r: Self)
        ensures
            r.capability == capability,
    {
        SearchDailyNotesOperation { capability }
    }
}

/// Longest date range a daily-note search accepts.
pub const MAX_SEARCH_DAYS: usize = 365;

/// Why a daily-note search range is refused.
#[derive(Debug, Clone, Copy, PartialEq, Eq, Structural)]
pub enum RangeError {
    InvalidStart,
    InvalidEnd,
    StartAfterEnd,
    TooLong,
}

/// The dates a daily-note search covers, from `start` to `end`. Either bound
/// must be a valid date, `start` must not come after `end`, and the range may
/// hold at most `MAX_SEARCH_DAYS` dates.
pub fn search_dates(start: &str, end: &str) -> (r: Result<Vec<String>, RangeError>)
    ensures
        !valid_date(start@) ==> r == Err::<Vec<String>, RangeError>(RangeError::InvalidStart),
        valid_date(start@) && !valid_date(end@) ==> r == Err::<Vec<String>, RangeError>(
            RangeError::InvalidEnd,
        ),
        valid_date(start@) && valid_date(end@) && seq_lt(end@, start@) ==> r == Err::<
            Vec<String>,
            RangeError,
        >(RangeError::StartAfterEnd),
        valid_date(start@) && valid_date(end@) && !seq_lt(end@, start@) ==> {
            let all = range_from(start@, end@, MAX_RANGE_DAYS as nat);
            &&& all.len() > MAX_SEARCH_DAYS ==> r == Err::<Vec<String>, RangeError>(
                RangeError::TooLong,
            )
            &&& all.len() <= MAX_SEARCH_DAYS ==> r is Ok && string_views(r->Ok_0@) == all
        },
{
    if !validate_date(start) {
        return Err(RangeError::InvalidStart);
    }
    if !validate_date(end) {
        return Err(RangeError::InvalidEnd);
    }
    let dates = date_range(start, end);
    if dates.len() == 0 {
        return Err(RangeError::StartAfterEnd);
    }
    if dates.len() > MAX_SEARCH_DAYS {
        return Err(RangeError::TooLong);
    }
    Ok(dates)
}

impl RangeError {
    /// The message a caller reports for this refusal.
    pub fn message(&self) -> (r: &'static str) {
        match self {
            RangeError::InvalidStart => "start_date must be in YYYY-MM-DD format",
            RangeError::InvalidEnd => "end_date must be in YYYY-MM-DD format",
            RangeError::StartAfterEnd => "Invalid date range: start_date must be <= end_date",
            RangeError::TooLong => "Date range limited to 365 days",
        }
    }
}

// ---- outline ----

#[derive(Debug)]
pub struct GetOutlineRequest {
    pub vault_path: Option<String>,
    pub file_path: String,
    pub hierarchical: Option<bool>,
}

#[derive(Debug)]
pub struct GetOutlineResponse {
    pub file_path: String,
    pub file_name: String,
    pub headings: Vec<Heading>,
    pub total_count: usize,
}

#[derive(Debug)]
pub struct GetSectionRequest {
    pub vault_path: Option<String>,
    pub file_path: String,
    pub heading: String,
    pub include_subsections: Option<bool>,
}

#[derive(Debug)]
pub struct GetSectionResponse {
    pub file_path: String,
    pub file_name: String,
    pub sections: Vec<Section>,
    pub section_count: usize,
}

#[derive(Debug)]
pub struct SearchHeadingsRequest {
    pub vault_path: Option<String>,
    pub pattern: String,
    pub min_level: Option<u8>,
    pub max_level: Option<u8>,
    pub limit: Option<usize>,
}

#[derive(Debug)]
pub struct SearchHeadingsResponse {
    pub matches: Vec<HeadingMatch>,
    pub total_count: usize,
}

// ---- tags ----

#[derive(Debug)]
pub struct ListTagsRequest {
    pub path: Option<String>,
    pub subpath: Option<String>,
    pub min_count: Option<usize>,
    pub limit: Option<usize>,
}

#[derive(Debug)]
pub struct ListTagsResponse {
    pub tags: Vec<TagCount>,
    pub total_unique_tags: usize,
    pub truncated: bool,
}

#[derive(Debug)]
pub struct SearchByTagsRequest {
    pub path: Option<String>,
    pub tags: Vec<String>,
    pub match_all: Option<bool>,
    pub subpath: Option<String>,
    pub limit: Option<usize>,
}

#[derive(Debug)]
pub struct SearchByTagsResponse {
    pub files: Vec<TaggedFile>,
    pub total_count: usize,
}

/// The counts with at least `min_count` documents, in their order.
pub open spec fn at_least(tags: Seq<TagCount>, min_count: Option<usize>) -> Seq<TagCount>
    decreases tags.len(),
{
    if tags.len() == 0 {
        seq![]
    } else {
        let prev = at_least(tags.drop_last(), min_count);
        if min_count is None || tags.last().document_count >= min_count->0 {
            prev.push(tags.last())
        } else {
            prev
        }
    }
}

/// The tag listing: counts below `min_count` dropped, then at most `limit`
/// kept; the total is taken before either, and `truncated` tells whether the
/// limit cut anything.
pub fn list_tags_response(tags: Vec<TagCount>, min_count: Option<usize>, limit: Option<usize>) -> (r:
    ListTagsResponse)
    ensures
        r.total_unique_tags == tags@.len(),
        ({
            let kept = at_least(tags@, min_count);
            match limit {
                Some(l) => r.truncated == (kept.len() > l) && r.tags@ == (if kept.len() > l {
                    kept.take(l as int)
                } else {
                    kept
                }),
                None => !r.truncated && r.tags@ == kept,
            }
        }),
{
    let total = tags.len();
    let ghost orig = tags@;
    let mut tags = tags;
    let mut rev: Vec<TagCount> = Vec::new();
    while tags.len() > 0
        invariant
            tags@ == orig.take(tags@.len() as int),
            tags@.len() + rev@.len() == orig.len(),
            forall|j: int| 0 <= j < rev@.len() ==> #[trigger] rev@[j] == orig[orig.len() - 1 - j],
        decreases tags@.len(),
    {
        let t = tags.pop().unwrap();
        rev.push(t);
        proof {
            assert(tags@ =~= orig.take(tags@.len() as int));
        }
    }
    let mut kept: Vec<TagCount> = Vec::new();
    while rev.len() > 0
        invariant
            rev@.len() <= orig.len(),
            forall|j: int| 0 <= j < rev@.len() ==> #[trigger] rev@[j] == orig[orig.len() - 1 - j],
            kept@ == at_least(orig.take(orig.len() - rev@.len()), min_count),
        decreases rev@.len(),
    {
        let ghost k = orig.len() - rev@.len();
        let t = rev.pop().unwrap();
        proof {
            assert(orig.take(k + 1).drop_last() =~= orig.take(k));
            assert(orig.take(k + 1).last() == orig[k]);
        }
        let keep = match min_count {
            Some(m) => t.document_count >= m,
            None => true,
        };
        if keep {
            kept.push(t);
        }
    }
    proof {
        assert(orig.take(orig.len() as int) =~= orig);
    }
    let truncated = match limit {
        Some(l) => if kept.len() > l {
            kept.truncate(l);
            true
        } else {
            false
        },
        None => false,
    };
    ListTagsResponse { tags: kept, total_unique_tags: total, truncated }
}

/// The tag search response: the total before the limit, and at most `limit` files.
pub fn search_by_tags_response(files: Vec<TaggedFile>, limit: Option<usize>) -> (r:
    SearchByTagsResponse)
    ensures
        r.total_count == files@.len(),
        r.files@ == match limit {
            Some(l) => if files@.len() > l {
                files@.take(l as int)
            } else {
                files@
            },
            None => files@,
        },
{
    let total = files.len();
    let mut files = files;
    if let Some(l) = limit {
        files.truncate(l);
    }
    SearchByTagsResponse { files, total_count: total }
}

} // verus!

verus! {

/// The first date a default daily-note search may start from.
pub open spec fn epoch_2000() -> Seq<char> {
    seq!['2', '0', '0', '0', '-', '0', '1', '-', '0', '1']
}

/// Days a daily-note search looks back when no start date is given.
pub const DEFAULT_LOOKBACK: usize = 30;

/// The default start of a search ending at `end`: the date `DEFAULT_LOOKBACK - 1`
/// days earlier as counted along the dates from 2000-01-01 to `end`, or `end`
/// itself when that run is empty.
pub open spec fn default_start(end: Seq<char>) -> Seq<char> {
    if valid_date(end) && !seq_lt(end, epoch_2000()) {
        let all = range_from(epoch_2000(), end, MAX_RANGE_DAYS as nat);
        if all.len() > DEFAULT_LOOKBACK {
            all[all.len() - DEFAULT_LOOKBACK]
        } else {
            all[0]
        }
    } else {
        end
    }
}

proof fn lemma_range_from_nonempty(cur: Seq<char>, end: Seq<char>, budget: nat)
    requires
        budget > 0,
    ensures
        range_from(cur, end, budget).len() >= 1,
        range_from(cur, end, budget)[0] == cur,
{
}

/// The start date of a daily-note search that names only its end.
pub fn default_start_date(end: &str) -> (r: String)
    ensures
        r@ == default_start(end@),
{
    let start_chars = vec!['2', '0', '0', '0', '-', '0', '1', '-', '0', '1'];
    assert(start_chars@ =~= epoch_2000());
    let start = crate::text::string_of(&start_chars);
    proof {
        reveal_with_fuel(crate::dates::dec_value, 5);
        assert(start@.take(4) =~= seq!['2', '0', '0', '0']);
        assert(start@.subrange(5, 7) =~= seq!['0', '1']);
        assert(start@.subrange(8, 10) =~= seq!['0', '1']);
        assert(valid_date(start@));
        lemma_range_from_nonempty(epoch_2000(), end@, MAX_RANGE_DAYS as nat);
    }
    let all = date_range(start.as_str(), end);
    let n = all.len();
    if n == 0 {
        return end.to_owned();
    }
    let idx = if n > DEFAULT_LOOKBACK {
        n - DEFAULT_LOOKBACK
    } else {
        0
    };
    proof {
        assert(string_views(all@)[idx as int] == all@[idx as int]@);
    }
    all[idx].clone()
}

/// Found notes, in ascending date order, put newest first unless `ascending`,
/// then cut to `limit` (100 when none is given). Also returns how many there
/// were before the cut.
pub fn arrange_daily_notes(notes: Vec<DailyNoteResult>, ascending: bool, limit: Option<usize>) -> (r:
    (Vec<DailyNoteResult>, usize))
    ensures
        r.1 == notes@.len(),
        ({
            let ordered = if ascending {
                notes@
            } else {
                notes@.reverse()
            };
            let cap = match limit {
                Some(l) => l,
                None => 100,
            };
            r.0@ == if ordered.len() > cap {
                ordered.take(cap as int)
            } else {
                ordered
            }
        }),
{
    let total = notes.len();
    let ghost orig = notes@;
    let mut notes = notes;
    let mut ordered: Vec<DailyNoteResult> = Vec::new();
    if ascending {
        ordered = notes;
    } else {
        while notes.len() > 0
            invariant
                notes@.len() <= orig.len(),
                notes@ == orig.take(notes@.len() as int),
                ordered@.len() == orig.len() - notes@.len(),
                forall|j: int| 0 <= j < ordered@.len() ==> #[trigger] ordered@[j] == orig[orig.len() - 1 - j],
            decreases notes@.len(),
        {
            let n = notes.pop().unwrap();
            ordered.push(n);
            proof {
                assert(notes@ =~= orig.take(notes@.len() as int));
            }
        }
        proof {
            assert(ordered@ =~= orig.reverse());
        }
    }
    let cap = match limit {
        Some(l) => l,
        None => 100,
    };
    ordered.truncate(cap);
    (ordered, total)
}

} // verus!
