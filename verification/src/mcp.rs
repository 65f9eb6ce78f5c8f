//! The requests and answers of the tool server: turning a request into scan
//! filters, and scan results, search matches and trends into answers.

use vstd::prelude::*;
use chrono::TimeZone;
use crate::aggregate::{FindMatch, FindMatchView};
use crate::clock::{representable, floor_secs, days_from_epoch, NANOS_PER_SEC};
use crate::filters::{parse_since, since_answer, result_view};
use crate::output::total_files;
use crate::scanner::{DirResult, DirResultView, FileEntry, FileEntryView, ScanConfig};
use crate::sorting::views;
use crate::trend::{TrendDelta, TrendEntryView};

verus! {

/// Whether `t` (nanoseconds since the epoch) lies in the range of chrono's
/// `DateTime<Utc>`: from `NaiveDate::MIN`, -262143-01-01 (day -96465292),
/// up to, not including, 262143-01-01 (day 95026237), at midnight UTC.
pub open spec fn chrono_range(t: int) -> bool {
    -96465292 * 86_400_000_000_000 <= t < 95026237 * 86_400_000_000_000
}

/// The day numbers in `chrono_range` are those of its first day and of the
/// day after its last.
pub proof fn lemma_chrono_range_days()
    ensures
        days_from_epoch(-262143, 1, 1) == -96465292,
        days_from_epoch(262143, 1, 1) == 95026237,
{
    assert(days_from_epoch(-262143, 1, 1) == -96465292);
    assert(days_from_epoch(262143, 1, 1) == 95026237);
}

/// What chrono's `to_rfc3339` prints for the UTC instant `secs` seconds and
/// `nanos` nanoseconds after the epoch.
pub uninterp spec fn rfc3339_utc(secs: i64, nanos: u32) -> Seq<char>;

/// Calls chrono's `Utc.timestamp_opt(secs, nanos)` and then `to_rfc3339`; the
/// contract claims the text is `rfc3339_utc(secs, nanos)`. `timestamp_opt`
/// yields a single instant for seconds in chrono's range and nanoseconds
/// below one second.
#[verifier::external_body]
fn utc_rfc3339(secs: i64, nanos: u32) -> (r: String)
    requires
        -96465292 * 86400 <= secs < 95026237 * 86400,
        nanos < 1_000_000_000,
    ensures
        r@ == rfc3339_utc(secs, nanos),
{
    chrono::Utc.timestamp_opt(secs, nanos).unwrap().to_rfc3339()
}

/// The RFC 3339 text of the instant `t` (nanoseconds since the epoch).
pub open spec fn rfc3339_at(t: int) -> Seq<char> {
    rfc3339_utc((t / 1_000_000_000) as i64, (t % 1_000_000_000) as u32)
}

/// The RFC 3339 text of the instant `t`, in UTC.
pub fn system_time_to_rfc3339(t: i128) -> (r: String)
    requires
        chrono_range(t as int),
    ensures
        r@ == rfc3339_at(t as int),
{
    let secs = floor_secs(t);
    let nanos = t - secs * NANOS_PER_SEC;
    assert(0 <= nanos < 1_000_000_000 && nanos == t % 1_000_000_000) by (nonlinear_arith)
        requires
            secs == t / 1_000_000_000,
            nanos == t - secs * 1_000_000_000,
    ;
    assert(-96465292 * 86400 <= secs < 95026237 * 86400) by (nonlinear_arith)
        requires
            secs == t / 1_000_000_000,
            chrono_range(t as int),
    ;
    utc_rfc3339(secs as i64, nanos as u32)
}

/// A request to scan a directory.
pub struct FindChangedRequest {
    /// Directory to scan (absolute or relative path).
    pub dir: String,
    /// Time range start: "2h", "7d", "30m", or ISO date "2026-01-01".
    pub since: Option<String>,
    /// Time range end (defaults to now); same format as `since`.
    pub until: Option<String>,
    /// Point that every file of a stale directory is older than (same format).
    pub stale: Option<String>,
    /// File type preset or comma-separated extensions.
    pub type_filter: Option<String>,
    /// Exact filename to match.
    pub file: Option<String>,
    /// Maximum directory recursion depth.
    pub depth: Option<usize>,
    /// Force a full re-scan, ignoring the cached index.
    pub refresh: Option<bool>,
}

/// A file in an answer to a scan.
pub struct FileEntryOut {
    pub name: String,
    pub path: String,
    pub mtime: String,
    pub size: u64,
    pub type_label: String,
}

/// A directory in an answer to a scan.
pub struct DirResultOut {
    pub dir: String,
    pub files: Vec<FileEntryOut>,
}

/// The answer to a scan.
pub struct FindChangedResponse {
    pub results: Vec<DirResultOut>,
    pub total_files_matched: usize,
    pub total_files_scanned: u64,
    pub elapsed_ms: u128,
}

/// A request to search file names across the scanned roots.
pub struct FuzzyFindRequest {
    /// Case-insensitive substring to search for.
    pub pattern: String,
}

/// A match in an answer to a search.
pub struct FuzzyFindMatchOut {
    pub root: String,
    pub path: String,
    pub mtime: String,
    pub size: u64,
    pub cache_age_secs: u64,
}

/// The answer to a search.
pub struct FuzzyFindResponse {
    pub matches: Vec<FuzzyFindMatchOut>,
}

/// A request for the growth history of a directory.
pub struct TrendRequest {
    /// Directory to report growth history for.
    pub dir: String,
}

/// A change between two scans in an answer.
pub struct TrendDeltaOut {
    pub from_walked_at: String,
    pub to_walked_at: String,
    pub file_count_delta: i64,
    pub total_size_delta: i64,
    pub file_count_after: u64,
    pub total_size_after: u64,
}

/// The answer to a trend request.
pub struct TrendResponse {
    pub deltas: Vec<TrendDeltaOut>,
}

/// An optional time parse result as plain values (`Ok(None)` has no parse
/// counterpart and is read as an empty message).
pub open spec fn opt_result_view(r: Result<Option<i128>, String>) -> Result<int, Seq<char>> {
    match r {
        Ok(Some(t)) => Ok(t as int),
        Ok(None) => Err(Seq::empty()),
        Err(e) => Err(e@),
    }
}

/// Parses an optional time bound: nothing when absent, else as `parse_since`.
pub fn parse_opt_time(s: &Option<String>) -> (r: Result<Option<i128>, String>)
    ensures
        s is None ==> r matches Ok(None),
        s matches Some(x) ==> !(r matches Ok(None)) && exists|now: int|
            representable(now) && since_answer(x@, now, opt_result_view(r)),
{
    match s {
        Some(x) => {
            let p = parse_since(x.as_str());
            let r = match p {
                Ok(t) => Ok(Some(t)),
                Err(e) => Err(e),
            };
            assert(opt_result_view(r) == result_view(p));
            r
        },
        None => Ok(None),
    }
}

/// Whether the optional bound `o` was parsed, at some clock reading, into `v`.
pub open spec fn time_parsed(o: Option<String>, v: Option<i128>) -> bool {
    match o {
        None => v is None,
        Some(x) => v is Some && exists|now: int|
            representable(now) && since_answer(x@, now, Ok(v->0 as int)),
    }
}

/// Whether parsing the optional bound `o`, at some clock reading, fails with `e`.
pub open spec fn time_failed(o: Option<String>, e: Seq<char>) -> bool {
    match o {
        None => false,
        Some(x) => exists|now: int| representable(now) && since_answer(x@, now, Err(e)),
    }
}

fn opt_string(o: &Option<String>) -> (r: Option<String>)
    ensures
        match o {
            Some(x) => r matches Some(y) && y@ == x@,
            None => r is None,
        },
{
    match o {
        Some(x) => Some(x.clone()),
        None => None,
    }
}

/// The scan filters of a request: its time bounds parsed, its type, file
/// name and depth as given. The first bound that fails to parse (since, until,
/// stale, in that order) gives the error.
pub fn scan_config(req: &FindChangedRequest) -> (r: Result<ScanConfig, String>)
    ensures
        r matches Ok(c) ==> {
            &&& time_parsed(req.since, c.since)
            &&& time_parsed(req.until, c.until)
            &&& time_parsed(req.stale, c.stale_before)
            &&& match req.type_filter { Some(t) => c.type_spec matches Some(u) && u@ == t@, None => c.type_spec is None }
            &&& match req.file { Some(t) => c.filename matches Some(u) && u@ == t@, None => c.filename is None }
            &&& c.max_depth == req.depth
        },
        r matches Err(e) ==> {
            ||| time_failed(req.since, e@)
            ||| (exists|v: Option<i128>| time_parsed(req.since, v)) && time_failed(req.until, e@)
            ||| (exists|v: Option<i128>| time_parsed(req.since, v)) && (exists|w: Option<i128>|
                time_parsed(req.until, w)) && time_failed(req.stale, e@)
        },
{
    let since = match parse_opt_time(&req.since) {
        Ok(v) => v,
        Err(e) => return Err(e),
    };
    assert(time_parsed(req.since, since));
    let until = match parse_opt_time(&req.until) {
        Ok(v) => v,
        Err(e) => return Err(e),
    };
    assert(time_parsed(req.until, until));
    let stale_before = match parse_opt_time(&req.stale) {
        Ok(v) => v,
        Err(e) => return Err(e),
    };
    assert(time_parsed(req.stale, stale_before));
    Ok(ScanConfig {
        since,
        until,
        type_spec: opt_string(&req.type_filter),
        filename: opt_string(&req.file),
        max_depth: req.depth,
        stale_before,
    })
}

/// Whether `o` is the answer form of the file `f`.
pub open spec fn file_out_matches(o: FileEntryOut, f: FileEntryView) -> bool {
    &&& o.name@ == f.name
    &&& o.path@ == f.path
    &&& o.mtime@ == rfc3339_at(f.mtime)
    &&& o.size == f.size
    &&& o.type_label@ == f.type_label
}

/// Whether `o` is the answer form of the directory `d`.
pub open spec fn dir_out_matches(o: DirResultOut, d: DirResultView) -> bool {
    &&& o.dir@ == d.dir
    &&& o.files@.len() == d.files.len()
    &&& forall|i: int| 0 <= i < d.files.len() ==> file_out_matches(#[trigger] o.files@[i], d.files[i])
}

/// Whether every time of `d` lies in chrono's range.
pub open spec fn dir_times_in_range(d: DirResultView) -> bool {
    forall|i: int| 0 <= i < d.files.len() ==> chrono_range(#[trigger] d.files[i].mtime)
}

/// The answer form of a directory of results.
pub fn dir_result_out(d: &DirResult) -> (r: DirResultOut)
    requires
        dir_times_in_range(d@),
    ensures
        dir_out_matches(r, d@),
{
    let mut files: Vec<FileEntryOut> = Vec::new();
    let mut i: usize = 0;
    while i < d.files.len()
        invariant
            i <= d.files@.len(),
            dir_times_in_range(d@),
            files@.len() == i,
            forall|k: int| 0 <= k < i ==> file_out_matches(#[trigger] files@[k], d@.files[k]),
        decreases d.files.len() - i,
    {
        let f = &d.files[i];
        assert(d@.files[i as int] == f@);
        assert(chrono_range(d@.files[i as int].mtime));
        let o = FileEntryOut {
            name: f.name.clone(),
            path: f.path.clone(),
            mtime: system_time_to_rfc3339(f.mtime),
            size: f.size,
            type_label: f.type_label.clone(),
        };
        files.push(o);
        i = i + 1;
    }
    DirResultOut { dir: d.dir.clone(), files }
}

/// The answer to a scan: each directory in order, the number of files
/// matched, the number scanned and the time taken.
pub fn find_changed_response(results: &[DirResult], scanned: u64, elapsed_ms: u128) -> (r: FindChangedResponse)
    requires
        total_files(views(results@)) <= usize::MAX,
        forall|i: int| 0 <= i < results@.len() ==> dir_times_in_range(#[trigger] results@[i]@),
    ensures
        r.results@.len() == results@.len(),
        forall|i: int| 0 <= i < results@.len() ==> dir_out_matches(#[trigger] r.results@[i], results@[i]@),
        r.total_files_matched == total_files(views(results@)),
        r.total_files_scanned == scanned,
        r.elapsed_ms == elapsed_ms,
{
    let mut out: Vec<DirResultOut> = Vec::new();
    let mut total: usize = 0;
    let mut i: usize = 0;
    while i < results.len()
        invariant
            i <= results@.len(),
            total_files(views(results@)) <= usize::MAX,
            forall|k: int| 0 <= k < results@.len() ==> dir_times_in_range(#[trigger] results@[k]@),
            out@.len() == i,
            forall|k: int| 0 <= k < i ==> dir_out_matches(#[trigger] out@[k], results@[k]@),
            total == total_files(views(results@).take(i as int)),
        decreases results.len() - i,
    {
        proof {
            lemma_total_files_prefix(views(results@), i + 1);
            assert(views(results@).take(i + 1).drop_last() == views(results@).take(i as int));
        }
        let d = &results[i];
        total = total + d.files.len();
        out.push(dir_result_out(d));
        i = i + 1;
    }
    assert(views(results@).take(results@.len() as int) == views(results@));
    FindChangedResponse { results: out, total_files_matched: total, total_files_scanned: scanned, elapsed_ms }
}

proof fn lemma_total_files_prefix(rs: Seq<DirResultView>, i: int)
    requires
        0 <= i <= rs.len(),
    ensures
        total_files(rs.take(i)) <= total_files(rs),
    decreases rs.len(),
{
    if i < rs.len() {
        lemma_total_files_prefix(rs.drop_last(), i);
        assert(rs.drop_last().take(i) == rs.take(i));
    } else {
        assert(rs.take(i) == rs);
    }
}

/// Whether `o` is the answer form of the search match `m`.
pub open spec fn match_out_matches(o: FuzzyFindMatchOut, m: FindMatchView) -> bool {
    &&& o.root@ == m.root
    &&& o.path@ == m.file.path
    &&& o.mtime@ == rfc3339_at(m.file.mtime)
    &&& o.size == m.file.size
    &&& o.cache_age_secs as int == m.cache_age / 1_000_000_000
}

/// Whether a search match can be answered: its time lies in chrono's range and
/// its age in whole seconds fits `u64`.
pub open spec fn match_answerable(m: FindMatchView) -> bool {
    chrono_range(m.file.mtime) && m.cache_age / 1_000_000_000 <= u64::MAX
}

/// The answer to a search: each match in order.
pub fn fuzzy_find_response(matches: &[FindMatch]) -> (r: FuzzyFindResponse)
    requires
        forall|i: int| 0 <= i < matches@.len() ==> match_answerable(#[trigger] matches@[i]@),
    ensures
        r.matches@.len() == matches@.len(),
        forall|i: int| 0 <= i < matches@.len() ==> match_out_matches(#[trigger] r.matches@[i], matches@[i]@),
{
    let mut out: Vec<FuzzyFindMatchOut> = Vec::new();
    let mut i: usize = 0;
    while i < matches.len()
        invariant
            i <= matches@.len(),
            forall|k: int| 0 <= k < matches@.len() ==> match_answerable(#[trigger] matches@[k]@),
            out@.len() == i,
            forall|k: int| 0 <= k < i ==> match_out_matches(#[trigger] out@[k], matches@[k]@),
        decreases matches.len() - i,
    {
        let m = &matches[i];
        assert(match_answerable(matches@[i as int]@));
        let age = m.cache_age / 1_000_000_000u128;
        let o = FuzzyFindMatchOut {
            root: m.root.clone(),
            path: m.file.path.clone(),
            mtime: system_time_to_rfc3339(m.file.mtime),
            size: m.file.size,
            cache_age_secs: age as u64,
        };
        out.push(o);
        i = i + 1;
    }
    FuzzyFindResponse { matches: out }
}

/// Whether `o` is the answer form of the change `d`.
pub open spec fn delta_out_matches(o: TrendDeltaOut, d: TrendDelta) -> bool {
    &&& o.from_walked_at@ == rfc3339_at(d.from.walked_at as int)
    &&& o.to_walked_at@ == rfc3339_at(d.to.walked_at as int)
    &&& o.file_count_delta == d.file_count_delta
    &&& o.total_size_delta == d.total_size_delta
    &&& o.file_count_after == d.to.file_count
    &&& o.total_size_after == d.to.total_size
}

/// Whether both scans of a change lie in chrono's range.
pub open spec fn delta_answerable(d: TrendDelta) -> bool {
    chrono_range(d.from.walked_at as int) && chrono_range(d.to.walked_at as int)
}

/// The answer to a trend request: each change in order.
pub fn trend_response(deltas: &[TrendDelta]) -> (r: TrendResponse)
    requires
        forall|i: int| 0 <= i < deltas@.len() ==> delta_answerable(#[trigger] deltas@[i]),
    ensures
        r.deltas@.len() == deltas@.len(),
        forall|i: int| 0 <= i < deltas@.len() ==> delta_out_matches(#[trigger] r.deltas@[i], deltas@[i]),
{
    let mut out: Vec<TrendDeltaOut> = Vec::new();
    let mut i: usize = 0;
    while i < deltas.len()
        invariant
            i <= deltas@.len(),
            forall|k: int| 0 <= k < deltas@.len() ==> delta_answerable(#[trigger] deltas@[k]),
            out@.len() == i,
            forall|k: int| 0 <= k < i ==> delta_out_matches(#[trigger] out@[k], deltas@[k]),
        decreases deltas.len() - i,
    {
        let d = &deltas[i];
        assert(delta_answerable(deltas@[i as int]));
        let o = TrendDeltaOut {
            from_walked_at: system_time_to_rfc3339(d.from.walked_at),
            to_walked_at: system_time_to_rfc3339(d.to.walked_at),
            file_count_delta: d.file_count_delta,
            total_size_delta: d.total_size_delta,
            file_count_after: d.to.file_count,
            total_size_after: d.to.total_size,
        };
        out.push(o);
        i = i + 1;
    }
    TrendResponse { deltas: out }
}

} // verus!
