use vstd::prelude::*;

verus! {

/// Status word of the shared progress header.
#[derive(Debug, Clone, Copy, PartialEq, Eq, Structural)]
pub enum SearchStatus {
    Idle,
    Searching,
    Completed,
    Cancelled,
    Error,
}

impl SearchStatus {
    pub open spec fn code_spec(self) -> u32 {
        match self {
            SearchStatus::Idle => 0,
            SearchStatus::Searching => 1,
            SearchStatus::Completed => 2,
            SearchStatus::Cancelled => 3,
            SearchStatus::Error => 4,
        }
    }

    pub fn code(&self) -> (r: u32)
        ensures
            r == self.code_spec(),
    {
        match self {
            SearchStatus::Idle => 0,
            SearchStatus::Searching => 1,
            SearchStatus::Completed => 2,
            SearchStatus::Cancelled => 3,
            SearchStatus::Error => 4,
        }
    }
}

/// Errors the engine reports.
#[derive(Debug, Clone, Copy, PartialEq, Eq, Structural)]
pub enum ErrorKind {
    NotInitialized,
    AlreadySearching,
    InvalidArgument,
    Io,
    ReaderFailure,
    Internal,
}

impl ErrorKind {
    pub open spec fn code_spec(self) -> u32 {
        match self {
            ErrorKind::NotInitialized => 1,
            ErrorKind::AlreadySearching => 2,
            ErrorKind::InvalidArgument => 3,
            ErrorKind::Io => 4,
            ErrorKind::ReaderFailure => 5,
            ErrorKind::Internal => 6,
        }
    }

    pub fn code(&self) -> (r: u32)
        ensures
            r == self.code_spec(),
    {
        match self {
            ErrorKind::NotInitialized => 1,
            ErrorKind::AlreadySearching => 2,
            ErrorKind::InvalidArgument => 3,
            ErrorKind::Io => 4,
            ErrorKind::ReaderFailure => 5,
            ErrorKind::Internal => 6,
        }
    }
}

/// The fields of the shared progress header.
#[derive(Debug, Clone, Copy, PartialEq, Eq, Structural)]
pub struct ProgressHeader {
    pub status: u32,
    pub progress: u32,
    pub regions_done: u32,
    pub found_count: i64,
    pub error_code: u32,
    pub heartbeat: u32,
    pub cancel_req: u32,
}

/// The found count after adding `found`: the addend is capped at
/// `i64::MAX`, and the count stays put when the sum would not fit.
pub open spec fn saturating_found(count: int, found: int) -> int {
    let add = if found > 9223372036854775807 {
        9223372036854775807
    } else {
        found
    };
    if count >= 0 && count <= 9223372036854775807 - add {
        count + add
    } else {
        count
    }
}

pub open spec fn min_u32(a: int, b: int) -> int {
    if a <= b {
        a
    } else {
        b
    }
}

/// Decisions of one scan: what the host may start, how progress is
/// published, and how a scan ends.  The work itself runs elsewhere and
/// reports back through these transitions.
pub struct SearchController {
    pub initialized: bool,
    pub searching: bool,
    pub cancel_requested: bool,
    pub total_regions: u32,
    pub header: ProgressHeader,
}

impl SearchController {
    pub fn new() -> (r: Self)
        ensures
            !r.initialized,
            !r.searching,
            r.header.status == SearchStatus::Idle.code_spec(),
    {
        SearchController {
            initialized: false,
            searching: false,
            cancel_requested: false,
            total_regions: 0,
            header: ProgressHeader {
                status: 0,
                progress: 0,
                regions_done: 0,
                found_count: 0,
                error_code: 0,
                heartbeat: 0,
                cancel_req: 0,
            },
        }
    }

    pub fn init(&mut self)
        ensures
            final(self).initialized,
            final(self).searching == old(self).searching,
            final(self).header == old(self).header,
    {
        self.initialized = true;
    }

    fn fail(&mut self, e: ErrorKind)
        ensures
            final(self).header.status == SearchStatus::Error.code_spec(),
            final(self).header.error_code == e.code_spec(),
            final(self).initialized == old(self).initialized,
            final(self).searching == old(self).searching,
    {
        self.header.status = SearchStatus::Error.code();
        self.header.error_code = e.code();
    }

    /// Starts a scan of `regions` regions: refused before `init` and while a
    /// scan runs, with the error published in the header.  On success the
    /// counters are reset and the status is `Searching`.
    pub fn start(&mut self, regions: u32) -> (r: Result<(), ErrorKind>)
        ensures
            !old(self).initialized ==> r == Err::<(), ErrorKind>(ErrorKind::NotInitialized),
            old(self).initialized && old(self).searching ==> r == Err::<(), ErrorKind>(
                ErrorKind::AlreadySearching,
            ),
            r is Err ==> final(self).header.status == SearchStatus::Error.code_spec()
                && final(self).header.error_code == r->Err_0.code_spec() && final(self).searching
                == old(self).searching,
            r is Ok <==> old(self).initialized && !old(self).searching,
            r is Ok ==> final(self).searching && !final(self).cancel_requested
                && final(self).header.status == SearchStatus::Searching.code_spec()
                && final(self).header.found_count == 0 && final(self).header.regions_done == 0
                && final(self).header.progress == 0 && final(self).total_regions == regions,
    {
        if !self.initialized {
            self.fail(ErrorKind::NotInitialized);
            return Err(ErrorKind::NotInitialized);
        }
        if self.searching {
            self.fail(ErrorKind::AlreadySearching);
            return Err(ErrorKind::AlreadySearching);
        }
        self.searching = true;
        self.cancel_requested = false;
        self.total_regions = regions;
        self.header.status = SearchStatus::Searching.code();
        self.header.error_code = 0;
        self.header.progress = 0;
        self.header.regions_done = 0;
        self.header.found_count = 0;
        self.header.cancel_req = 0;
        Ok(())
    }

    /// The host asks the scan to stop.
    pub fn request_cancel(&mut self)
        ensures
            final(self).cancel_requested,
            final(self).header.cancel_req == 1,
            final(self).searching == old(self).searching,
            final(self).header.status == old(self).header.status,
    {
        self.cancel_requested = true;
        self.header.cancel_req = 1;
    }

    /// Whether work should stop: a cancel was asked for here or in the header.
    pub fn should_stop(&self) -> (r: bool)
        ensures
            r == (self.cancel_requested || self.header.cancel_req != 0),
    {
        self.cancel_requested || self.header.cancel_req != 0
    }

    /// One more region finished with `found` matches: the region count grows
    /// by one (saturating), `found` is added to the found count (saturating at
    /// `i64::MAX`), the heartbeat advances (wrapping), and the progress is the
    /// share of regions done, in percent.
    pub fn region_done(&mut self, found: u64)
        ensures
            final(self).header.regions_done == (if old(self).header.regions_done < u32::MAX {
                old(self).header.regions_done + 1
            } else {
                old(self).header.regions_done as int
            }),
            final(self).header.found_count == saturating_found(old(self).header.found_count as int, found as int),
            final(self).header.heartbeat == (if old(self).header.heartbeat < u32::MAX {
                old(self).header.heartbeat + 1
            } else {
                0
            }),
            old(self).total_regions > 0 ==> final(self).header.progress == min_u32(
                final(self).header.regions_done as int,
                old(self).total_regions as int,
            ) * 100 / (old(self).total_regions as int),
            old(self).total_regions == 0 ==> final(self).header.progress == old(self).header.progress,
            final(self).header.status == old(self).header.status,
            final(self).header.error_code == old(self).header.error_code,
            final(self).header.cancel_req == old(self).header.cancel_req,
            final(self).searching == old(self).searching,
            final(self).initialized == old(self).initialized,
            final(self).cancel_requested == old(self).cancel_requested,
            final(self).total_regions == old(self).total_regions,
    {
        if self.header.regions_done < u32::MAX {
            self.header.regions_done = self.header.regions_done + 1;
        }
        let add: i64 = if found > i64::MAX as u64 {
            i64::MAX
        } else {
            found as i64
        };
        if self.header.found_count >= 0 && self.header.found_count <= i64::MAX - add {
            self.header.found_count = self.header.found_count + add;
        }
        if self.header.heartbeat < u32::MAX {
            self.header.heartbeat = self.header.heartbeat + 1;
        } else {
            self.header.heartbeat = 0;
        }
        if self.total_regions > 0 {
            let done = if self.header.regions_done <= self.total_regions {
                self.header.regions_done as u64
            } else {
                self.total_regions as u64
            };
            let t = self.total_regions as u64;
            let pct = done * 100 / t;
            assert(pct <= 100) by (nonlinear_arith)
                requires
                    pct as int == (done as int * 100) / (t as int),
                    done <= t,
                    t > 0,
            ;
            self.header.progress = pct as u32;
        }
    }

    /// Publishes the final counts of a scan that ran to its end; the status
    /// is written separately, by `complete`, once the results are visible.
    pub fn publish_counts(&mut self, found: u64)
        ensures
            final(self).header.found_count == (if found > i64::MAX as u64 {
                i64::MAX
            } else {
                found as i64
            }),
            final(self).header.progress == 100,
            final(self).header.regions_done == old(self).total_regions,
            final(self).header.status == old(self).header.status,
            final(self).searching == old(self).searching,
            final(self).cancel_requested == old(self).cancel_requested,
    {
        self.header.found_count = if found > i64::MAX as u64 {
            i64::MAX
        } else {
            found as i64
        };
        self.header.progress = 100;
        self.header.regions_done = self.total_regions;
    }

    /// Ends the scan: `Cancelled` when a stop was asked for, whatever the
    /// work produced, else `Completed`.
    pub fn complete(&mut self)
        ensures
            !final(self).searching,
            (old(self).cancel_requested || old(self).header.cancel_req != 0) ==> final(self).header.status
                == SearchStatus::Cancelled.code_spec(),
            !(old(self).cancel_requested || old(self).header.cancel_req != 0) ==> final(self).header.status
                == SearchStatus::Completed.code_spec(),
            final(self).header.found_count == old(self).header.found_count,
    {
        if self.should_stop() {
            self.header.status = SearchStatus::Cancelled.code();
        } else {
            self.header.status = SearchStatus::Completed.code();
        }
        self.searching = false;
    }

    /// Ends the scan with an error.
    pub fn abort(&mut self, e: ErrorKind)
        ensures
            !final(self).searching,
            final(self).header.status == SearchStatus::Error.code_spec(),
            final(self).header.error_code == e.code_spec(),
    {
        self.fail(e);
        self.searching = false;
    }
}

/// Splits a flat `[start, end, start, end, ...]` list into regions; an odd
/// length or a region ending before it starts is an invalid argument.
pub fn region_pairs(flat: &Vec<u64>) -> (r: Result<Vec<(u64, u64)>, ErrorKind>)
    ensures
        flat@.len() % 2 == 1 ==> r == Err::<Vec<(u64, u64)>, ErrorKind>(ErrorKind::InvalidArgument),
        r matches Ok(v) ==> v@.len() * 2 == flat@.len() && forall|i: int|
            0 <= i < v@.len() ==> (#[trigger] v@[i]).0 == flat@[2 * i] && v@[i].1 == flat@[2 * i + 1]
                && v@[i].0 <= v@[i].1,
        r is Err ==> r == Err::<Vec<(u64, u64)>, ErrorKind>(ErrorKind::InvalidArgument),
        flat@.len() % 2 == 0 && (forall|i: int| 0 <= i < flat@.len() / 2 ==> #[trigger] flat@[2 * i] <= flat@[2 * i + 1]) ==> r is Ok,
{
    if flat.len() % 2 == 1 {
        return Err(ErrorKind::InvalidArgument);
    }
    let mut out: Vec<(u64, u64)> = Vec::new();
    let mut i: usize = 0;
    while i < flat.len() / 2
        invariant
            flat@.len() % 2 == 0,
            i <= flat@.len() / 2,
            out@.len() == i,
            forall|k: int|
                0 <= k < i ==> (#[trigger] out@[k]).0 == flat@[2 * k] && out@[k].1 == flat@[2 * k + 1]
                    && out@[k].0 <= out@[k].1,
        decreases flat@.len() / 2 - i,
    {
        let s = flat[2 * i];
        let e = flat[2 * i + 1];
        if s > e {
            return Err(ErrorKind::InvalidArgument);
        }
        out.push((s, e));
        i = i + 1;
    }
    Ok(out)
}

} // verus!
