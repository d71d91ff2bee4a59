//! Planning and bookkeeping of a transfer: the file size probe, the split
//! into byte ranges, and the per-part retry and progress-sync decisions.

use vstd::prelude::*;
use vstd::string::StringExecFns;
use crate::registry::{opt_view, CtrlState};
use crate::text::{
    chars_of, decimal, decimal_of, has_prefix, last_piece, last_piece_of, parse_u64, parse_u64_of,
    string_of,
};

verus! {

/// Retries a part makes after its first attempt.
pub const MAX_RETRIES: u32 = 5;

/// Bytes a transfer receives between two progress reports.
pub const SYNC_INTERVAL: u64 = 262144;

/// Connections a file may be split over.
pub const MAX_PARTS: u64 = 8;

/// The file size a `Range: bytes=0-0` probe reveals: the number after the
/// last `/` of `Content-Range` on a 206 answer, else 0 (unknown).
pub open spec fn probed_total(status: u16, content_range: Option<Seq<char>>) -> u64 {
    if status != 206 {
        0
    } else {
        match content_range {
            None => 0,
            Some(cr) => match parse_u64(last_piece(cr, '/')) {
                Some(n) => n,
                None => 0,
            },
        }
    }
}

/// Reads the file size from the answer to a one-byte range probe.
pub fn total_from_probe(status: u16, content_range: Option<&str>) -> (r: u64)
    ensures
        r == probed_total(status, match content_range { Some(s) => Some(s@), None => None }),
{
    if status != 206 {
        return 0;
    }
    match content_range {
        None => 0,
        Some(cr) => {
            let chars = chars_of(cr);
            let tail = last_piece_of(chars.as_slice(), '/');
            match parse_u64_of(tail.as_slice()) {
                Some(n) => n,
                None => 0,
            }
        },
    }
}

/// How a file is fetched.
#[derive(PartialEq, Eq, Structural, Clone, Copy, Debug)]
pub enum DownloadMode {
    /// One stream, used when the size is unknown or one connection is asked for.
    Single,
    /// `parts` ranges fetched side by side.
    Parallel { parts: u64 },
}

/// `parts` clamped to 1..=8.
pub open spec fn clamped_parts(parts: u64) -> u64 {
    if parts < 1 {
        1
    } else if parts > MAX_PARTS {
        MAX_PARTS
    } else {
        parts
    }
}

/// The mode a file of `total` bytes (0: unknown) is fetched in when
/// `parts` connections are asked for.
pub open spec fn download_mode(total: u64, parts: u64) -> DownloadMode {
    if total == 0 || clamped_parts(parts) <= 1 {
        DownloadMode::Single
    } else {
        DownloadMode::Parallel { parts: clamped_parts(parts) }
    }
}

/// Chooses between one stream and parallel ranges.
pub fn choose_mode(total: u64, parts: u64) -> (r: DownloadMode)
    ensures
        r == download_mode(total, parts),
        total > 0 && parts >= 2 ==> r == (DownloadMode::Parallel { parts: if parts <= 8 { parts } else { 8 } }),
        total == 0 || parts <= 1 ==> r == DownloadMode::Single,
{
    proof { lemma_download_mode(total, parts); }
    let p = if parts < 1 {
        1
    } else if parts > MAX_PARTS {
        MAX_PARTS
    } else {
        parts
    };
    if total == 0 || p <= 1 {
        DownloadMode::Single
    } else {
        DownloadMode::Parallel { parts: p }
    }
}

/// A parallel download runs over a file of known size with 2 to 8
/// connections; anything else is fetched as one stream.
pub proof fn lemma_parallel_parts_bounded(total: u64, parts: u64)
    ensures
        download_mode(total, parts) matches DownloadMode::Parallel { parts: n } ==> total > 0 && 2 <= n <= MAX_PARTS,
        (total == 0 || parts <= 1) ==> download_mode(total, parts) == DownloadMode::Single,
{
}

/// A file of known size asked for two or more connections is fetched in
/// parallel over as many ranges as asked for, but at most eight; a file of
/// unknown size, or one asked for at most one connection, as one stream.
pub proof fn lemma_download_mode(total: u64, parts: u64)
    ensures
        total > 0 && parts >= 2 ==> download_mode(total, parts) == (DownloadMode::Parallel {
            parts: if parts <= 8 { parts } else { 8 },
        }),
        total == 0 || parts <= 1 ==> download_mode(total, parts) == DownloadMode::Single,
{
}

/// The number of ranges: `parts`, but never more than there are bytes.
pub open spec fn range_count(total: u64, parts: u64) -> u64 {
    if parts > total {
        total
    } else {
        parts
    }
}

/// The byte range (inclusive) of part `i` when `total` bytes are split into
/// `n` parts: equal lengths `total / n`, the last part taking the rest.
pub open spec fn part_range(total: u64, n: u64, i: int) -> (u64, u64) {
    let len = total / n;
    (
        (i * len) as u64,
        if i == n - 1 {
            (total - 1) as u64
        } else {
            ((i + 1) * len - 1) as u64
        },
    )
}

proof fn lemma_part_bounds(total: u64, n: u64, i: int)
    requires
        0 < n <= total,
        0 <= i < n,
    ensures
        total / n >= 1,
        i * (total / n) + (total / n) <= total,
        (i + 1) * (total / n) == i * (total / n) + (total / n),
        i * (total / n) <= (n - 1) * (total / n),
        (n - 1) * (total / n) + (total / n) <= total,
{
    let len = total / n;
    assert(len >= 1) by (nonlinear_arith)
        requires
            0 < n <= total,
            len == total / n,
    ;
    assert(n * len <= total) by (nonlinear_arith)
        requires
            0 < n,
            len == total / n,
    ;
    assert((i + 1) * len == i * len + len) by (nonlinear_arith);
    assert(i * len <= (n - 1) * len) by (nonlinear_arith)
        requires
            0 <= i < n,
            len >= 0,
    ;
    assert((n - 1) * len + len == n * len) by (nonlinear_arith);
    assert(i * len + len <= n * len) by (nonlinear_arith)
        requires
            0 <= i < n,
            len >= 0,
    ;
}

/// Splits `total` bytes into byte ranges for parallel parts.
pub fn split_ranges(total: u64, parts: u64) -> (r: Vec<(u64, u64)>)
    requires
        total > 0,
        parts > 0,
    ensures
        r@.len() == range_count(total, parts),
        forall|i: int| 0 <= i < r@.len() ==> #[trigger] r@[i] == part_range(total, range_count(total, parts), i),
{
    let n = if parts > total {
        total
    } else {
        parts
    };
    let len = total / n;
    let mut r: Vec<(u64, u64)> = Vec::new();
    let mut i: u64 = 0;
    while i < n
        invariant
            0 < n <= total,
            n == range_count(total, parts),
            len == total / n,
            i <= n,
            r@.len() == i,
            forall|j: int| 0 <= j < i ==> #[trigger] r@[j] == part_range(total, n, j),
        decreases n - i,
    {
        proof { lemma_part_bounds(total, n, i as int); }
        let start = i * len;
        let end = if i == n - 1 {
            total - 1
        } else {
            (i + 1) * len - 1
        };
        r.push((start, end));
        i = i + 1;
    }
    r
}

/// The ranges of a split are non-empty, start at byte 0, follow one
/// another without gap or overlap, and end at the last byte.
pub proof fn lemma_ranges_tile(total: u64, parts: u64)
    requires
        total > 0,
        parts > 0,
    ensures
        ({
            let n = range_count(total, parts);
            &&& n >= 1
            &&& part_range(total, n, 0).0 == 0
            &&& part_range(total, n, n - 1).1 == total - 1
            &&& forall|i: int| 0 <= i < n ==> (#[trigger] part_range(total, n, i)).0 <= part_range(total, n, i).1
            &&& forall|i: int| 0 <= i < n - 1 ==> (#[trigger] part_range(total, n, i + 1)).0 == part_range(total, n, i).1 + 1
        }),
{
    let n = range_count(total, parts);
    let len = total / n;
    lemma_part_bounds(total, n, 0);
    assert(0 * len == 0) by (nonlinear_arith);
    assert forall|i: int| 0 <= i < n implies (#[trigger] part_range(total, n, i)).0 <= part_range(total, n, i).1 by {
        lemma_part_bounds(total, n, i);
    }
    assert forall|i: int| 0 <= i < n - 1 implies (#[trigger] part_range(total, n, i + 1)).0 == part_range(total, n, i).1 + 1 by {
        lemma_part_bounds(total, n, i);
        lemma_part_bounds(total, n, i + 1);
    }
}

/// The `Range` header value asking for bytes `from` through `end`.
pub open spec fn range_value(from: u64, end: u64) -> Seq<char> {
    "bytes="@ + decimal(from as nat) + "-"@ + decimal(end as nat)
}

/// Builds `bytes={from}-{end}`.
pub fn range_header(from: u64, end: u64) -> (r: String)
    ensures
        r@ == range_value(from, end),
{
    let mut r = String::from_str("bytes=");
    let a = decimal_of(from as u128);
    let b = decimal_of(end as u128);
    r.append(string_of(a.as_slice()).as_str());
    r.append("-");
    r.append(string_of(b.as_slice()).as_str());
    r
}

/// The pause before retry number `attempt + 1`: half a second per attempt made.
pub open spec fn retry_delay(attempt: u32) -> u64 {
    (500 * (attempt + 1)) as u64
}

/// Why a part gave up.
#[derive(PartialEq, Eq, Structural, Clone, Copy, Debug)]
pub enum PartFailure {
    /// The server answered with a status that is neither success nor 206;
    /// the caller reports it as `HTTP {status}`.
    HttpStatus,
    /// The server ignored the range of a resumed part.
    NoRangeSupport,
}

/// What to do with the answer to a range request.
#[derive(PartialEq, Eq, Structural, Clone, Copy, Debug)]
pub enum ResponseStep {
    /// Write the body from the requested offset.
    Stream,
    /// Wait `delay_ms`, then make the next attempt.
    Retry { delay_ms: u64 },
    /// Give up.
    Fail(PartFailure),
}

/// What follows the end of a part's body stream.
pub enum AttemptEnd {
    /// The part is complete.
    Done,
    /// Wait `delay_ms`, then make the next attempt.
    Retry { delay_ms: u64 },
    /// Give up with this error.
    Fail(String),
}

/// What follows one received chunk.
#[derive(PartialEq, Eq, Structural, Clone, Copy, Debug)]
pub enum ChunkStep {
    /// Keep reading.
    Continue,
    /// Report `delta` more bytes, after honouring pause and cancel.
    Sync { delta: u64 },
    /// The byte count would not fit in 64 bits.
    Overflow,
}

/// One byte range of a parallel download, with what has been written of it.
pub struct PartDownload {
    /// First byte of the range.
    pub start: u64,
    /// Last byte of the range.
    pub end: u64,
    /// Bytes written so far, over all attempts.
    pub written: u64,
    /// `written` at the last progress report.
    pub last_sync: u64,
    /// The attempt under way (0 for the first).
    pub attempt: u32,
}

/// The message of a part whose stream ended early without an error.
pub open spec fn missing_data_message() -> Seq<char> {
    "Missing data (connection closed)"@
}

/// The error a failed attempt ends with: the stream's own, else the
/// missing-data message.
pub open spec fn failure_message(failure: Option<Seq<char>>) -> Seq<char> {
    match failure {
        Some(f) => f,
        None => missing_data_message(),
    }
}

/// The message of a part whose server ignored the range.
pub open spec fn no_range_message() -> Seq<char> {
    "Server does not support range requests"@
}

impl PartDownload {
    /// The bytes the range holds.
    pub open spec fn part_len(&self) -> int {
        self.end - self.start + 1
    }

    pub open spec fn wf(&self) -> bool {
        &&& self.start <= self.end
        &&& self.end - self.start < u64::MAX
        &&& self.last_sync <= self.written
        &&& self.start + self.written <= u64::MAX
        &&& self.attempt <= MAX_RETRIES + 1
    }

    /// A part for bytes `start` through `end`, nothing written yet.
    pub fn new(start: u64, end: u64) -> (r: Self)
        requires
            start <= end,
            end - start < u64::MAX,
        ensures
            r.wf(),
            r.start == start,
            r.end == end,
            r.written == 0,
            r.last_sync == 0,
            r.attempt == 0,
    {
        PartDownload { start, end, written: 0, last_sync: 0, attempt: 0 }
    }

    /// The offset the next request starts at, or `None` when nothing is
    /// left to fetch (the range is written, or the attempts are used up).
    pub fn next_from(&self) -> (r: Option<u64>)
        requires
            self.wf(),
        ensures
            r == (if self.attempt > MAX_RETRIES || self.start + self.written > self.end {
                None::<u64>
            } else {
                Some((self.start + self.written) as u64)
            }),
    {
        if self.attempt > MAX_RETRIES {
            return None;
        }
        let from = self.start + self.written;
        if from > self.end {
            None
        } else {
            Some(from)
        }
    }

    /// Judges the status of the answer to a request from `from`; a retry
    /// moves to the next attempt.
    pub fn on_response(&mut self, status: u16, from: u64) -> (r: ResponseStep)
        requires
            old(self).wf(),
            old(self).attempt <= MAX_RETRIES,
        ensures
            final(self).wf(),
            final(self).start == old(self).start,
            final(self).end == old(self).end,
            final(self).written == old(self).written,
            final(self).last_sync == old(self).last_sync,
            ({
                let ranged = status == 206;
                let success = 200 <= status <= 299;
                let last = old(self).attempt == MAX_RETRIES;
                if !ranged && (!success || from > 0) {
                    if last {
                        &&& r == ResponseStep::Fail(if !success { PartFailure::HttpStatus } else { PartFailure::NoRangeSupport })
                        &&& final(self).attempt == old(self).attempt
                    } else {
                        &&& r == ResponseStep::Retry { delay_ms: retry_delay(old(self).attempt) }
                        &&& final(self).attempt == old(self).attempt + 1
                    }
                } else {
                    &&& r == ResponseStep::Stream
                    &&& final(self).attempt == old(self).attempt
                }
            }),
    {
        let ranged = status == 206;
        let success = 200 <= status && status <= 299;
        if !ranged && !success {
            if self.attempt == MAX_RETRIES {
                return ResponseStep::Fail(PartFailure::HttpStatus);
            }
            let delay = 500 * (self.attempt as u64 + 1);
            self.attempt = self.attempt + 1;
            return ResponseStep::Retry { delay_ms: delay };
        }
        if !ranged && from > 0 {
            if self.attempt == MAX_RETRIES {
                return ResponseStep::Fail(PartFailure::NoRangeSupport);
            }
            let delay = 500 * (self.attempt as u64 + 1);
            self.attempt = self.attempt + 1;
            return ResponseStep::Retry { delay_ms: delay };
        }
        ResponseStep::Stream
    }

    /// Counts a written chunk of `len` bytes; asks for a progress report
    /// once `SYNC_INTERVAL` bytes have come since the last one, or the range
    /// is complete.
    pub fn on_chunk(&mut self, len: u64) -> (r: ChunkStep)
        requires
            old(self).wf(),
        ensures
            final(self).wf(),
            final(self).start == old(self).start,
            final(self).end == old(self).end,
            final(self).attempt == old(self).attempt,
            old(self).start + old(self).written + len > u64::MAX ==> r == ChunkStep::Overflow && *final(self) == *old(self),
            old(self).start + old(self).written + len <= u64::MAX ==> ({
                let w = old(self).written + len;
                &&& final(self).written == w
                &&& if w - old(self).last_sync < SYNC_INTERVAL && w < old(self).part_len() {
                    &&& r == ChunkStep::Continue
                    &&& final(self).last_sync == old(self).last_sync
                } else {
                    &&& r == ChunkStep::Sync { delta: (w - old(self).last_sync) as u64 }
                    &&& final(self).last_sync == w
                }
            }),
    {
        if len > u64::MAX - self.start - self.written {
            return ChunkStep::Overflow;
        }
        self.written = self.written + len;
        let part_len = self.end - self.start + 1;
        if self.written - self.last_sync < SYNC_INTERVAL && self.written < part_len {
            return ChunkStep::Continue;
        }
        let delta = self.written - self.last_sync;
        self.last_sync = self.written;
        ChunkStep::Sync { delta }
    }

    /// Judges the end of a body stream; `failure` is the stream's own error,
    /// if it had one. A retry moves to the next attempt.
    pub fn end_attempt(&mut self, failure: Option<String>) -> (r: AttemptEnd)
        requires
            old(self).wf(),
            old(self).attempt <= MAX_RETRIES,
        ensures
            final(self).wf(),
            final(self).start == old(self).start,
            final(self).end == old(self).end,
            final(self).written == old(self).written,
            final(self).last_sync == old(self).last_sync,
            old(self).written >= old(self).part_len() ==> (r is Done) && final(self).attempt == old(self).attempt,
            old(self).written < old(self).part_len() && old(self).attempt == MAX_RETRIES ==> (r matches AttemptEnd::Fail(e) && e@ == failure_message(opt_view(failure))) && final(self).attempt == old(self).attempt,
            old(self).written < old(self).part_len() && old(self).attempt < MAX_RETRIES ==> (r matches AttemptEnd::Retry { delay_ms } && delay_ms == retry_delay(old(self).attempt)) && final(self).attempt == old(self).attempt + 1,
    {
        let part_len = self.end - self.start + 1;
        if self.written < part_len {
            let e = match failure {
                Some(f) => f,
                None => String::from_str("Missing data (connection closed)"),
            };
            if self.attempt == MAX_RETRIES {
                return AttemptEnd::Fail(e);
            }
            let delay = 500 * (self.attempt as u64 + 1);
            self.attempt = self.attempt + 1;
            return AttemptEnd::Retry { delay_ms: delay };
        }
        AttemptEnd::Done
    }
}

/// A single-stream download and how much of it has been received.
pub struct SingleDownload {
    /// The size probed beforehand (0: unknown).
    pub total: u64,
    /// Bytes received so far.
    pub downloaded: u64,
    /// `downloaded` at the last progress report.
    pub last_sync: u64,
}

impl SingleDownload {
    pub open spec fn wf(&self) -> bool {
        self.last_sync <= self.downloaded
    }

    /// A stream of `total` bytes (0: unknown), nothing received.
    pub fn new(total: u64) -> (r: Self)
        ensures
            r.wf(),
            r.total == total,
            r.downloaded == 0,
            r.last_sync == 0,
    {
        SingleDownload { total, downloaded: 0, last_sync: 0 }
    }

    /// Counts a received chunk of `len` bytes; asks for a progress report
    /// once `SYNC_INTERVAL` bytes have come since the last one, or the byte
    /// count equals the probed size.
    pub fn on_chunk(&mut self, len: u64) -> (r: ChunkStep)
        requires
            old(self).wf(),
        ensures
            final(self).wf(),
            final(self).total == old(self).total,
            old(self).downloaded + len > u64::MAX ==> r == ChunkStep::Overflow && *final(self) == *old(self),
            old(self).downloaded + len <= u64::MAX ==> ({
                let d = old(self).downloaded + len;
                &&& final(self).downloaded == d
                &&& if d - old(self).last_sync < SYNC_INTERVAL && d != old(self).total {
                    &&& r == ChunkStep::Continue
                    &&& final(self).last_sync == old(self).last_sync
                } else {
                    &&& r == ChunkStep::Sync { delta: (d - old(self).last_sync) as u64 }
                    &&& final(self).last_sync == d
                }
            }),
    {
        if len > u64::MAX - self.downloaded {
            return ChunkStep::Overflow;
        }
        self.downloaded = self.downloaded + len;
        if self.downloaded - self.last_sync < SYNC_INTERVAL && self.downloaded != self.total {
            return ChunkStep::Continue;
        }
        let delta = self.downloaded - self.last_sync;
        self.last_sync = self.downloaded;
        ChunkStep::Sync { delta }
    }
}

/// The first error among the parts' outcomes, in part order.
pub open spec fn first_error(outcomes: Seq<Option<Seq<char>>>) -> Option<Seq<char>>
    decreases outcomes.len(),
{
    if outcomes.len() == 0 {
        None
    } else {
        match outcomes[0] {
            Some(e) => Some(e),
            None => first_error(outcomes.drop_first()),
        }
    }
}

/// The plain values of the parts' outcomes.
pub open spec fn outcome_views(v: Seq<Option<String>>) -> Seq<Option<Seq<char>>> {
    v.map_values(|o: Option<String>| opt_view(o))
}

/// The first error among the parts' outcomes (`None` for a part that
/// succeeded).
pub fn first_part_error(outcomes: Vec<Option<String>>) -> (r: Option<String>)
    ensures
        match r {
            Some(e) => first_error(outcome_views(outcomes@)) == Some(e@),
            None => first_error(outcome_views(outcomes@)).is_none(),
        },
{
    let ghost views = outcome_views(outcomes@);
    let n = outcomes.len();
    let mut i: usize = 0;
    assert(views.skip(0) == views);
    while i < n
        invariant
            n == outcomes@.len(),
            views == outcome_views(outcomes@),
            i <= n,
            first_error(views) == first_error(views.skip(i as int)),
        decreases n - i,
    {
        assert(views.skip(i as int)[0] == views[i as int]);
        assert(views.skip(i as int).drop_first() == views.skip(i + 1));
        match &outcomes[i] {
            Some(e) => {
                return Some(e.clone());
            },
            None => {},
        }
        i = i + 1;
    }
    None
}

/// Whether a parallel download that failed with `error` leaves no partial
/// file behind: when it was cancelled, by the user or by the error itself.
pub open spec fn removes_partial(ctrl: CtrlState, error: Seq<char>) -> bool {
    ctrl == CtrlState::Cancelled || error == "Cancelled"@
}

/// Decides whether the partial file of a failed parallel download is removed.
pub fn should_remove_partial(ctrl: CtrlState, error: &str) -> (r: bool)
    ensures
        r == removes_partial(ctrl, error@),
{
    if ctrl == CtrlState::Cancelled {
        return true;
    }
    let e = chars_of(error);
    let c = chars_of("Cancelled");
    crate::text::chars_eq(e.as_slice(), c.as_slice())
}

/// The error of a transfer whose server answered with an unexpected status,
/// `status` being the status as shown (such as `404 Not Found`).
pub open spec fn status_message(status: Seq<char>) -> Seq<char> {
    "HTTP "@ + status
}

/// The error for an unexpected status (see `status_message`).
pub fn status_error(status: &str) -> (r: String)
    ensures
        r@ == status_message(status@),
{
    let mut m = String::from_str("HTTP ");
    m.append(status);
    m
}

/// The error of a transfer whose connection stayed open without data.
pub open spec fn idle_message() -> Seq<char> {
    "Idle timeout: no data received"@
}

/// The error for a connection that went idle (see `idle_message`).
pub fn idle_error() -> (r: String)
    ensures
        r@ == idle_message(),
{
    String::from_str("Idle timeout: no data received")
}

/// The error for a server that ignored the range (see `no_range_message`).
pub fn no_range_error() -> (r: String)
    ensures
        r@ == no_range_message(),
{
    String::from_str("Server does not support range requests")
}

/// The error of a part whose task ended without an outcome.
pub open spec fn part_panic_message() -> Seq<char> {
    "part task panicked"@
}

/// The outcome of one part, from what its task gave back (`None` when the
/// task ended without giving anything back): no error for a finished part,
/// the part's own error, or the panic message.
pub fn part_outcome(joined: Option<Result<(), String>>) -> (r: Option<String>)
    ensures
        match joined {
            Some(Ok(())) => r.is_none(),
            Some(Err(e)) => r == Some(e),
            None => r matches Some(m) && m@ == part_panic_message(),
        },
{
    match joined {
        Some(Ok(())) => None,
        Some(Err(e)) => Some(e),
        None => Some(String::from_str("part task panicked")),
    }
}

/// A file name that lands below the folder it is joined to: not empty, and
/// without `/`, `\` or `:`, so that it is neither absolute nor a drive.
pub open spec fn plain_file_name(name: Seq<char>) -> bool {
    name.len() > 0 && forall|i: int|
        0 <= i < name.len() ==> #[trigger] name[i] != '/' && name[i] != '\\' && name[i] != ':'
}

/// A folder a name is appended to as it is: not a bare drive (ending in
/// `:`) and not a verbatim path (starting with `\\?\`).
pub open spec fn plain_folder(dir: Seq<char>) -> bool {
    (dir.len() == 0 || dir.last() != ':') && !has_prefix(dir, seq!['\\', '\\', '?', '\\'])
}

/// `path` is `name` joined below folder `dir`: the name alone below an
/// empty folder; the folder then the name when the folder ends in `/`; and
/// otherwise the folder, one separator, then the name. A folder ending in
/// `\` already ends in a separator where `\` is one (Windows) and gets a
/// `/` where it is not; elsewhere the separator is `/` or `\`, as the
/// platform has it.
pub open spec fn joined_below(path: Seq<char>, dir: Seq<char>, name: Seq<char>) -> bool {
    if dir.len() == 0 {
        path == name
    } else if dir.last() == '/' {
        path == dir + name
    } else if dir.last() == '\\' {
        path == dir + name || path == dir + seq!['/'] + name
    } else {
        path == dir + seq!['/'] + name || path == dir + seq!['\\'] + name
    }
}

/// `std::path::Path::join` of a folder and a name, as text. The
/// documentation of `Path::join` and `PathBuf::push` says that a relative
/// path is adjoined to the folder, with a separator between them (`/etc`
/// joined with `passwd` gives `/etc/passwd`), and that an empty path has
/// nothing to be separated from. For a plain name below a plain folder that
/// is `joined_below`; which separator the platform uses is left open.
#[verifier::external_body]
fn join_path(dir: &str, name: &str) -> (r: String)
    ensures
        plain_file_name(name@) && plain_folder(dir@) ==> joined_below(r@, dir@, name@),
{
    std::path::Path::new(dir).join(name).to_string_lossy().into_owned()
}

/// Where a file named `filename` is saved in folder `save_dir`.
pub fn save_path(save_dir: &str, filename: &str) -> (r: String)
    ensures
        plain_file_name(filename@) && plain_folder(save_dir@) ==> joined_below(r@, save_dir@, filename@),
{
    join_path(save_dir, filename)
}

} // verus!
