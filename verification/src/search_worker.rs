//! What a search is asked for, and how its answers are handed over.

use crate::collect;
use crate::ordering;
use crate::results;
use crate::results::SearchResult;
use crate::store_builder::ResultStoreManifest;
use crate::text;
use crate::types::{SearchQueryMode, SearchQuerySpec};
use vstd::prelude::*;

verus! {

// ---------------------------------------------------------------------------
// Threads
// ---------------------------------------------------------------------------

/// How many threads a search may use.
#[derive(Clone, Copy, Debug, PartialEq, Eq, Structural)]
pub enum SearchThreadMode {
    Auto,
    Manual(usize),
    Maximum,
}

/// The bounds on the number of threads.
#[derive(Clone, Copy, Debug, PartialEq, Eq, Structural)]
pub struct ThreadBounds {
    pub minimum: usize,
    pub available: usize,
    pub auto_cap: usize,
}

/// A number between two bounds, or the bound that it is beyond.
pub open spec fn clamped(value: usize, low: usize, high: usize) -> usize {
    if value < low {
        low
    } else if value > high {
        high
    } else {
        value
    }
}

/// Keeps a number between two bounds.
pub fn clamp(value: usize, low: usize, high: usize) -> (r: usize)
    requires
        low <= high,
    ensures
        r == clamped(value, low, high),
        low <= r <= high,
{
    if value < low {
        low
    } else if value > high {
        high
    } else {
        value
    }
}

impl ThreadBounds {
    /// At least the minimum is available.
    pub open spec fn well_formed(&self) -> bool {
        self.minimum <= self.available
    }

    /// The bounds on a machine that reports a number of threads, or none.
    pub fn new(reported: Option<usize>, fallback: usize, minimum: usize, auto_cap: usize) -> (r:
        ThreadBounds)
        ensures
            r.well_formed(),
            r.minimum == minimum,
            r.auto_cap == auto_cap,
            ({
                let count = match reported {
                    Some(count) => count,
                    None => fallback,
                };
                r.available == (if count < minimum {
                    minimum
                } else {
                    count
                })
            }),
            r.available >= minimum,
            reported matches Some(count) ==> count >= minimum ==> r.available == count,
            reported is None && fallback >= minimum ==> r.available == fallback,
    {
        let count: usize = match reported {
            Some(count) => count,
            None => fallback,
        };
        let available: usize = if count < minimum {
            minimum
        } else {
            count
        };
        ThreadBounds { minimum, available, auto_cap }
    }

    /// The size of the pool for a number of threads that was asked for.
    pub fn pool_size(&self, requested: usize) -> (r: usize)
        requires
            self.well_formed(),
        ensures
            r == clamped(requested, self.minimum, self.available),
    {
        clamp(requested, self.minimum, self.available)
    }
}

impl SearchThreadMode {
    /// The number of threads that a setting stands for.
    pub open spec fn resolved(self, bounds: ThreadBounds) -> usize {
        match self {
            SearchThreadMode::Auto => {
                let spare = if bounds.available > 0 {
                    (bounds.available - 1) as usize
                } else {
                    0
                };
                let some = if spare < bounds.minimum {
                    bounds.minimum
                } else {
                    spare
                };
                if some > bounds.auto_cap {
                    bounds.auto_cap
                } else {
                    some
                }
            },
            SearchThreadMode::Manual(value) => clamped(value, bounds.minimum, bounds.available),
            SearchThreadMode::Maximum => bounds.available,
        }
    }

    /// The number of threads: by itself all but one, within bounds.
    pub fn resolve(self, bounds: &ThreadBounds) -> (r: usize)
        requires
            bounds.well_formed(),
        ensures
            r == self.resolved(*bounds),
    {
        match self {
            SearchThreadMode::Auto => {
                let spare: usize = bounds.available.saturating_sub(1);
                let some: usize = if spare < bounds.minimum {
                    bounds.minimum
                } else {
                    spare
                };
                if some > bounds.auto_cap {
                    bounds.auto_cap
                } else {
                    some
                }
            },
            SearchThreadMode::Manual(value) => clamp(value, bounds.minimum, bounds.available),
            SearchThreadMode::Maximum => bounds.available,
        }
    }

    /// How the setting is written.
    pub open spec fn written(self, bounds: ThreadBounds) -> Seq<char> {
        match self {
            SearchThreadMode::Auto => "auto"@,
            SearchThreadMode::Manual(value) => text::decimal(
                clamped(value, bounds.minimum, bounds.available) as int,
            ),
            SearchThreadMode::Maximum => "max"@,
        }
    }

    /// How the setting is written.
    pub fn setting_value(self, bounds: &ThreadBounds) -> (r: String)
        requires
            bounds.well_formed(),
        ensures
            r@ == (match self {
                SearchThreadMode::Auto => "auto"@,
                SearchThreadMode::Manual(value) => text::decimal(
                    clamped(value, bounds.minimum, bounds.available) as int,
                ),
                SearchThreadMode::Maximum => "max"@,
            }),
            r@ == self.written(*bounds),
    {
        match self {
            SearchThreadMode::Auto => "auto".to_owned(),
            SearchThreadMode::Manual(value) => text::decimal_u64(
                clamp(value, bounds.minimum, bounds.available) as u64,
            ),
            SearchThreadMode::Maximum => "max".to_owned(),
        }
    }

    /// The number that is shown for setting it by hand.
    pub fn manual_value(self, bounds: &ThreadBounds) -> (r: usize)
        requires
            bounds.well_formed(),
        ensures
            r == self.resolved(*bounds),
    {
        match self {
            SearchThreadMode::Manual(value) => clamp(value, bounds.minimum, bounds.available),
            SearchThreadMode::Auto => self.resolve(bounds),
            SearchThreadMode::Maximum => bounds.available,
        }
    }
}

// ---------------------------------------------------------------------------
// Batches of results
// ---------------------------------------------------------------------------

/// How far a search is.
#[derive(Clone, Copy, Debug, PartialEq, Eq, Structural)]
pub enum SearchStage {
    Idle,
    History,
    Folders,
    Directory,
    Done,
}

/// What came of storing all results.
#[derive(Debug, PartialEq, Eq)]
pub enum ResultStoreCompletion {
    Ready(ResultStoreManifest),
    Error(String),
}

/// Results that are handed over together.
#[derive(Debug, PartialEq, Eq)]
pub struct SearchBatch {
    pub generation: u64,
    pub results: Vec<SearchResult>,
    pub scanned_total: usize,
    pub stage: SearchStage,
    pub done: bool,
    pub effective_limit: usize,
    pub result_store: Option<ResultStoreCompletion>,
}

/// A batch of a generation waits.
pub open spec fn has_generation(pending: Seq<SearchBatch>, generation: u64) -> bool {
    exists|i: int| 0 <= i < pending.len() && (#[trigger] pending[i]).generation == generation
}

/// Puts a batch in the place of all that wait. Tells whether nobody has yet been told
/// that a batch of its generation waits.
pub fn coalesce_pending_search_batch(pending: &mut Vec<SearchBatch>, batch: SearchBatch) -> (r: bool)
    ensures
        final(pending)@ == seq![batch],
        r == !has_generation(old(pending)@, batch.generation),
{
    let mut known: bool = false;
    let mut i: usize = 0;
    while i < pending.len()
        invariant
            i <= pending.len(),
            pending@ == old(pending)@,
            known == exists|k: int|
                0 <= k < i && (#[trigger] pending@[k]).generation == batch.generation,
        decreases pending.len() - i,
    {
        if pending[i].generation == batch.generation {
            known = true;
        }
        i += 1;
    }
    pending.clear();
    pending.push(batch);
    !known
}

/// The limits of a search.
#[derive(Clone, Copy, Debug, PartialEq, Eq, Structural)]
pub struct SearchLimits {
    /// The number of results that was asked for.
    pub effective_limit: usize,
    /// All results are asked for, and stored.
    pub show_all: bool,
    /// The number of results that are kept at hand.
    pub preview_limit: usize,
    /// The number of results to take from what was used before.
    pub initial_limit: usize,
}

impl SearchLimits {
    /// The limits of a search for a number of results; all of them where the number is
    /// the greatest there is.
    pub fn new(effective_limit: usize, default_limit: usize) -> (r: SearchLimits)
        ensures
            r.effective_limit == collect::at_least_one(effective_limit),
            r.show_all == (effective_limit == usize::MAX),
            r.preview_limit == collect::at_least_one(
                if effective_limit == usize::MAX {
                    default_limit
                } else {
                    effective_limit
                },
            ),
            r.initial_limit == (if effective_limit == usize::MAX {
                usize::MAX
            } else {
                r.preview_limit
            }),
            1 <= r.preview_limit && 1 <= r.effective_limit && 1 <= r.initial_limit,
            0 < effective_limit < usize::MAX ==> r.effective_limit == effective_limit
                && r.preview_limit == effective_limit && r.initial_limit == effective_limit
                && !r.show_all,
            effective_limit == usize::MAX ==> r.show_all && r.effective_limit == usize::MAX
                && r.initial_limit == usize::MAX && (default_limit > 0 ==> r.preview_limit
                == default_limit),
    {
        let effective: usize = if effective_limit == 0 {
            1
        } else {
            effective_limit
        };
        let show_all = effective == usize::MAX;
        let preview_limit: usize = if show_all {
            if default_limit == 0 {
                1
            } else {
                default_limit
            }
        } else {
            effective
        };
        let initial_limit: usize = if show_all {
            usize::MAX
        } else {
            preview_limit
        };
        SearchLimits { effective_limit: effective, show_all, preview_limit, initial_limit }
    }
}

/// The rows to hand over when a search has all its rows: all of them, or the first in
/// order where all are stored as well.
pub fn completed_preview(rows: Vec<SearchResult>, effective_limit: usize, preview: usize) -> (r: Vec<
    SearchResult,
>)
    ensures
        r@ == (if effective_limit == usize::MAX {
            ordering::first(results::ordered_results(rows@), collect::at_least_one(preview))
        } else {
            rows@
        }),
        effective_limit != usize::MAX ==> r@ == rows@,
        effective_limit == usize::MAX && preview > 0 ==> r@.len() <= preview,
{
    if effective_limit != usize::MAX {
        return rows;
    }
    let mut list = results::sort_search_results(rows);
    let count: usize = if preview == 0 {
        1
    } else {
        preview
    };
    if count < list.len() {
        list.truncate(count);
    }
    list
}

// ---------------------------------------------------------------------------
// Requests
// ---------------------------------------------------------------------------

/// What a search is asked for. The folders, the scoring, the items used before and the
/// launch rules are those of numbered snapshots.
#[derive(Debug, PartialEq, Eq)]
pub struct SearchWorkerRequest {
    pub generation: u64,
    pub window: isize,
    pub spec: SearchQuerySpec,
    pub root_plan: u64,
    pub scoring: u64,
    pub recent_items: u64,
    pub query_launch_rules: u64,
    pub effective_limit: usize,
    pub search_threads: usize,
    pub include_score_detail: bool,
    pub include_explanation: bool,
}

/// What the worker is told.
#[derive(Debug, PartialEq, Eq)]
pub enum SearchWorkerCommand {
    Search(SearchWorkerRequest),
    InvalidateSession,
}

/// What the worker does next.
#[derive(Debug, PartialEq, Eq)]
pub enum MailboxStep {
    Command(SearchWorkerCommand),
    Wait,
    Stop,
}

/// What waits for the worker: only the newest request, and before it the word that what
/// is known is out of date.
#[derive(Debug, PartialEq, Eq)]
pub struct SearchMailbox {
    pub request: Option<SearchWorkerRequest>,
    pub invalidate_session: bool,
    pub shutdown: bool,
}

impl SearchMailbox {
    /// After the end nothing waits.
    pub open spec fn well_formed(&self) -> bool {
        self.shutdown ==> self.request is None && !self.invalidate_session
    }

    /// A request was put in the place of one that still waited.
    pub open spec fn submits(&self, after: SearchMailbox, request: SearchWorkerRequest) -> bool {
        &&& after.shutdown == self.shutdown
        &&& after.invalidate_session == self.invalidate_session
        &&& after.request == (if self.shutdown {
            None
        } else {
            Some(request)
        })
    }

    /// What is known was said to be out of date.
    pub open spec fn invalidates(&self, after: SearchMailbox) -> bool {
        &&& after.shutdown == self.shutdown
        &&& after.request is None
        &&& after.invalidate_session == !self.shutdown
    }

    /// The worker took its next step.
    pub open spec fn steps(&self, after: SearchMailbox, step: MailboxStep) -> bool {
        &&& after.shutdown == self.shutdown
        &&& !after.invalidate_session
        &&& if self.shutdown {
            step is Stop && after.request is None
        } else if self.invalidate_session {
            step == MailboxStep::Command(SearchWorkerCommand::InvalidateSession) && after.request
                == self.request
        } else {
            &&& after.request is None
            &&& match self.request {
                Some(request) => step == MailboxStep::Command(
                    SearchWorkerCommand::Search(request),
                ),
                None => step is Wait,
            }
        }
    }

    /// A mailbox in which nothing waits.
    pub fn new() -> (r: SearchMailbox)
        ensures
            r.well_formed(),
            r.request is None,
            !r.invalidate_session,
            !r.shutdown,
    {
        SearchMailbox { request: None, invalidate_session: false, shutdown: false }
    }

    /// Puts a request in the place of one that still waits.
    pub fn submit(&mut self, request: SearchWorkerRequest)
        requires
            old(self).well_formed(),
        ensures
            final(self).well_formed(),
            final(self).shutdown == old(self).shutdown,
            final(self).invalidate_session == old(self).invalidate_session,
            final(self).request == (if old(self).shutdown {
                None
            } else {
                Some(request)
            }),
            old(self).submits(*final(self), request),
    {
        if self.shutdown {
            return;
        }
        self.request = Some(request);
    }

    /// Says that what is known is out of date, a request that still waits with it.
    pub fn invalidate_session(&mut self)
        requires
            old(self).well_formed(),
        ensures
            final(self).well_formed(),
            final(self).shutdown == old(self).shutdown,
            final(self).request is None,
            final(self).invalidate_session == !old(self).shutdown,
            old(self).invalidates(*final(self)),
    {
        if self.shutdown {
            return;
        }
        self.invalidate_session = true;
        self.request = None;
    }

    /// What the worker does next.
    pub fn take(&mut self) -> (r: MailboxStep)
        requires
            old(self).well_formed(),
        ensures
            final(self).well_formed(),
            final(self).shutdown == old(self).shutdown,
            !final(self).invalidate_session,
            if old(self).shutdown {
                r is Stop && final(self).request is None
            } else if old(self).invalidate_session {
                r == MailboxStep::Command(SearchWorkerCommand::InvalidateSession)
                    && final(self).request == old(self).request
            } else {
                &&& final(self).request is None
                &&& match old(self).request {
                    Some(request) => r == MailboxStep::Command(
                        SearchWorkerCommand::Search(request),
                    ),
                    None => r is Wait,
                }
            },
            old(self).steps(*final(self), r),
    {
        if self.shutdown {
            self.request = None;
            self.invalidate_session = false;
            return MailboxStep::Stop;
        }
        if self.invalidate_session {
            self.invalidate_session = false;
            return MailboxStep::Command(SearchWorkerCommand::InvalidateSession);
        }
        match self.request.take() {
            Some(request) => MailboxStep::Command(SearchWorkerCommand::Search(request)),
            None => MailboxStep::Wait,
        }
    }

    /// The end: nothing waits any longer.
    pub fn shutdown(&mut self)
        ensures
            final(self).well_formed(),
            final(self).shutdown,
    {
        self.shutdown = true;
        self.request = None;
        self.invalidate_session = false;
    }
}

/// What the worker does with a request.
#[derive(Clone, Copy, Debug, PartialEq, Eq, Structural)]
pub enum RequestAction {
    /// It is out of date.
    Drop,
    /// The session goes on with the new query.
    Refine,
    /// A session is started in the place of one there may be.
    StartSession,
    /// The session is ended, and a search made.
    Search,
}

/// What to do with a request, where a session can go on with it or not.
pub fn request_action(request: &SearchWorkerRequest, active_generation: u64, can_refine: bool) -> (r:
    RequestAction)
    ensures
        r == (if active_generation != request.generation {
            RequestAction::Drop
        } else if request.spec.mode == SearchQueryMode::NormalSearch {
            if can_refine {
                RequestAction::Refine
            } else {
                RequestAction::StartSession
            }
        } else {
            RequestAction::Search
        }),
        r == RequestAction::Drop <==> active_generation != request.generation,
        r == RequestAction::Refine ==> can_refine,
        r == RequestAction::Refine || r == RequestAction::StartSession ==> request.spec.mode
            == SearchQueryMode::NormalSearch,
        r == RequestAction::Search ==> request.spec.mode != SearchQueryMode::NormalSearch,
{
    if active_generation != request.generation {
        RequestAction::Drop
    } else {
        match request.spec.mode {
            SearchQueryMode::NormalSearch => if can_refine {
                RequestAction::Refine
            } else {
                RequestAction::StartSession
            },
            _ => RequestAction::Search,
        }
    }
}

// ---------------------------------------------------------------------------
// A launch that waits for results
// ---------------------------------------------------------------------------

/// What becomes of a launch that waits.
#[derive(Clone, Copy, Debug, PartialEq, Eq, Structural)]
pub enum PendingLaunchDecision {
    Wait,
    Launch,
    Clear,
}

/// A launch of the first result of a query, as soon as there is one.
#[derive(Debug, PartialEq, Eq)]
pub struct PendingLaunchRequest {
    pub generation: u64,
    pub query: String,
}

impl PendingLaunchRequest {
    /// A launch that waits for the results of a query.
    pub fn new(generation: u64, query: String) -> (r: PendingLaunchRequest)
        ensures
            r.generation == generation,
            r.query == query,
    {
        PendingLaunchRequest { generation, query }
    }

    /// What becomes of the launch when a search has come so far.
    pub fn decide(&self, generation: u64, query: &str, has_results: bool, search_done: bool) -> (r:
        PendingLaunchDecision)
        ensures
            r == (if self.generation != generation || self.query@ != query@ {
                PendingLaunchDecision::Clear
            } else if has_results {
                PendingLaunchDecision::Launch
            } else if search_done {
                PendingLaunchDecision::Clear
            } else {
                PendingLaunchDecision::Wait
            }),
            r == PendingLaunchDecision::Launch <==> has_results && self.generation == generation
                && self.query@ == query@,
            r == PendingLaunchDecision::Wait ==> !has_results && !search_done,
    {
        if self.generation != generation || !text::same_text(self.query.as_str(), query) {
            PendingLaunchDecision::Clear
        } else if has_results {
            PendingLaunchDecision::Launch
        } else if search_done {
            PendingLaunchDecision::Clear
        } else {
            PendingLaunchDecision::Wait
        }
    }
}

// ---------------------------------------------------------------------------
// What requests are answered with
// ---------------------------------------------------------------------------

/// Of two requests that were submitted before the worker looked, it is given the second, once;
/// then it waits.
pub proof fn lemma_the_newest_request_counts(
    start: SearchMailbox,
    first: SearchWorkerRequest,
    second: SearchWorkerRequest,
    a: SearchMailbox,
    b: SearchMailbox,
    c: SearchMailbox,
    d: SearchMailbox,
    one: MailboxStep,
    two: MailboxStep,
)
    requires
        !start.shutdown,
        !start.invalidate_session,
        start.submits(a, first),
        a.submits(b, second),
        b.steps(c, one),
        c.steps(d, two),
    ensures
        one == MailboxStep::Command(SearchWorkerCommand::Search(second)),
        two is Wait,
{
}

/// What is out of date is said before anything else, and a request that waited goes with it;
/// one that is submitted afterwards follows.
pub proof fn lemma_out_of_date_comes_first(
    start: SearchMailbox,
    request: SearchWorkerRequest,
    a: SearchMailbox,
    b: SearchMailbox,
    c: SearchMailbox,
    d: SearchMailbox,
    one: MailboxStep,
    two: MailboxStep,
)
    requires
        !start.shutdown,
        start.invalidates(a),
        a.submits(b, request) || b == a,
        b.steps(c, one),
        c.steps(d, two),
    ensures
        one == MailboxStep::Command(SearchWorkerCommand::InvalidateSession),
        b == a ==> two is Wait,
        b != a ==> two == MailboxStep::Command(SearchWorkerCommand::Search(request)),
{
}

/// After the end nothing is taken up any more: the worker stops, whatever was submitted.
pub proof fn lemma_nothing_after_the_end(
    start: SearchMailbox,
    request: SearchWorkerRequest,
    a: SearchMailbox,
    b: SearchMailbox,
    step: MailboxStep,
)
    requires
        start.shutdown,
        start.submits(a, request) || start.invalidates(a),
        a.steps(b, step),
    ensures
        a.request is None,
        step is Stop,
        b.shutdown,
{
}

/// A search uses as many threads as there are but one, a number that was set as far as the
/// machine has it, or all of them; never fewer than the least, unless it is capped below.
pub proof fn lemma_threads_within_bounds(mode: SearchThreadMode, bounds: ThreadBounds)
    requires
        bounds.well_formed(),
    ensures
        mode == SearchThreadMode::Maximum ==> mode.resolved(bounds) == bounds.available,
        mode matches SearchThreadMode::Manual(n) ==> bounds.minimum <= mode.resolved(bounds)
            <= bounds.available && (bounds.minimum <= n <= bounds.available ==> mode.resolved(
            bounds,
        ) == n) && (n < bounds.minimum ==> mode.resolved(bounds) == bounds.minimum) && (n
            > bounds.available ==> mode.resolved(bounds) == bounds.available),
        mode == SearchThreadMode::Auto ==> mode.resolved(bounds) <= bounds.auto_cap && (
        bounds.minimum < bounds.available <= bounds.auto_cap ==> mode.resolved(bounds)
            == bounds.available - 1) && (bounds.minimum <= bounds.auto_cap ==> mode.resolved(bounds)
            >= bounds.minimum) && (bounds.available > bounds.auto_cap >= bounds.minimum
            ==> mode.resolved(bounds) == bounds.auto_cap),
{
}

} // verus!
