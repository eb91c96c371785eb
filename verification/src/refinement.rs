//! Going on with a search when the last word of its query grows.

use crate::arith;
use crate::collect;
use crate::fuzzy;
use crate::items;
use crate::keyset::KeySet;
use crate::ordering;
use crate::places;
use crate::query;
use crate::query_rules;
use crate::query_rules::{PathState, QueryLaunchRule};
use crate::recent_paths;
use crate::recent_paths::{MatchScope, RecentPath};
use crate::recents;
use crate::results;
use crate::results::{RankedCandidate, SearchResult};
use crate::scan;
use crate::scan::{DirectoryScanContext, SearchScope};
use crate::scoring;
use crate::scoring::{PreparedCandidateName, PreparedQuery};
use crate::search_progress;
use crate::search_progress::SearchProgress;
use crate::search_worker::{SearchStage, SearchWorkerRequest};
use crate::text;
use crate::types::{LaunchItem, ScoringConfig, SearchQueryMode, SearchQuerySpec};
use vstd::prelude::*;

verus! {

// ---------------------------------------------------------------------------
// When a search can go on
// ---------------------------------------------------------------------------

/// A text grows into another: they are the same, or have the same words but for the
/// last, which is longer and begins with the earlier one.
pub open spec fn grows_into(previous: Seq<char>, next: Seq<char>) -> bool {
    let a = text::words(text::trimmed(previous));
    let b = text::words(text::trimmed(next));
    ||| text::trimmed(previous) == text::trimmed(next)
    ||| a.len() > 0 && a.len() == b.len() && a.drop_last() == b.drop_last() && a.last().len()
        < b.last().len() && text::has_prefix(b.last(), a.last())
}

/// A search for one query can go on with another.
pub open spec fn allows_refinement(previous: SearchQuerySpec, next: SearchQuerySpec) -> bool {
    &&& previous.mode == SearchQueryMode::NormalSearch
    &&& next.mode == SearchQueryMode::NormalSearch
    &&& text::texts(previous.modifiers@) == text::texts(next.modifiers@)
    &&& text::texts(previous.scoring_modifiers@) == text::texts(next.scoring_modifiers@)
    &&& grows_into(previous.folded_search_text@, next.folded_search_text@)
}

/// Whether the first `n` texts of two lists are the same.
fn same_first(a: &Vec<String>, b: &Vec<String>, n: usize) -> (r: bool)
    requires
        n <= a.len(),
        n <= b.len(),
    ensures
        r == (text::texts(a@).take(n as int) == text::texts(b@).take(n as int)),
{
    let mut i: usize = 0;
    while i < n
        invariant
            i <= n <= a.len(),
            n <= b.len(),
            forall|k: int| 0 <= k < i ==> #[trigger] a@[k]@ == b@[k]@,
        decreases n - i,
    {
        if !text::same_text(a[i].as_str(), b[i].as_str()) {
            proof {
                assert(text::texts(a@).take(n as int)[i as int] == a@[i as int]@);
                assert(text::texts(b@).take(n as int)[i as int] == b@[i as int]@);
            }
            return false;
        }
        i += 1;
    }
    proof {
        assert(text::texts(a@).take(n as int) =~= text::texts(b@).take(n as int));
    }
    true
}

/// Whether a search for one query can go on with another.
pub fn query_specs_allow_refinement(previous: &SearchQuerySpec, next: &SearchQuerySpec) -> (r: bool)
    ensures
        r == allows_refinement(*previous, *next),
{
    let both_normal = match (&previous.mode, &next.mode) {
        (SearchQueryMode::NormalSearch, SearchQueryMode::NormalSearch) => true,
        _ => false,
    };
    if !both_normal || !text::same_texts(
        previous.modifiers.as_slice(),
        next.modifiers.as_slice(),
    ) || !text::same_texts(
        previous.scoring_modifiers.as_slice(),
        next.scoring_modifiers.as_slice(),
    ) {
        return false;
    }
    let previous_text = text::trim_text(previous.folded_search_text.as_str());
    let next_text = text::trim_text(next.folded_search_text.as_str());
    if text::same_text(previous_text.as_str(), next_text.as_str()) {
        return true;
    }
    let a = text::split_whitespace(previous_text.as_str());
    let b = text::split_whitespace(next_text.as_str());
    proof {
        assert(text::texts(a@).len() == a@.len());
        assert(text::texts(b@).len() == b@.len());
    }
    if a.len() == 0 || a.len() != b.len() {
        return false;
    }
    let last: usize = a.len() - 1;
    proof {
        assert(text::texts(a@).take(last as int) =~= text::texts(a@).drop_last());
        assert(text::texts(b@).take(last as int) =~= text::texts(b@).drop_last());
    }
    let old_word = text::chars_of(a[last].as_str());
    let new_word = text::chars_of(b[last].as_str());
    same_first(&a, &b, last) && new_word.len() > old_word.len() && text::begins_with(
        new_word.as_slice(),
        old_word.as_slice(),
    )
}

/// A session can go on with a request.
pub open spec fn compatible(previous: SearchWorkerRequest, next: SearchWorkerRequest) -> bool {
    &&& allows_refinement(previous.spec, next.spec)
    &&& previous.search_threads == next.search_threads
    &&& previous.root_plan == next.root_plan
    &&& previous.scoring == next.scoring
    &&& previous.recent_items == next.recent_items
    &&& previous.query_launch_rules == next.query_launch_rules
}

/// Whether a session can go on with a request.
pub fn refinement_requests_compatible(previous: &SearchWorkerRequest, next: &SearchWorkerRequest) -> (r:
    bool)
    ensures
        r == compatible(*previous, *next),
{
    query_specs_allow_refinement(&previous.spec, &next.spec) && previous.search_threads
        == next.search_threads && previous.root_plan == next.root_plan && previous.scoring
        == next.scoring && previous.recent_items == next.recent_items
        && previous.query_launch_rules == next.query_launch_rules
}

/// The number of results that are kept at hand.
pub open spec fn preview_limit(effective_limit: usize, default_limit: usize) -> int {
    collect::at_least_one(
        if effective_limit == usize::MAX {
            default_limit
        } else {
            effective_limit
        },
    )
}

/// The number of results that are kept at hand.
pub fn refinement_preview_limit(effective_limit: usize, default_limit: usize) -> (r: usize)
    ensures
        r == preview_limit(effective_limit, default_limit),
{
    let limit: usize = if effective_limit == usize::MAX {
        default_limit
    } else {
        effective_limit
    };
    if limit == 0 {
        1
    } else {
        limit
    }
}

/// Whether progress is to be shown: at whole steps, once an interval has passed.
pub fn refinement_progress_due(scanned_total: usize, step: usize, interval_passed: bool) -> (r: bool)
    ensures
        r == (scanned_total > 0 && search_progress::is_multiple(scanned_total, step)
            && interval_passed),
{
    scanned_total > 0 && search_progress::is_multiple_of(scanned_total, step) && interval_passed
}

// ---------------------------------------------------------------------------
// The rows to begin with
// ---------------------------------------------------------------------------

/// The rows that a search begins with: the paths launched before that fit, and before
/// them the one that a launch rule pins.
pub fn initial_results(
    scope: &MatchScope,
    list: &[RecentPath],
    limit: usize,
    raw_query: &str,
    rules: &[QueryLaunchRule],
    state: Option<PathState>,
) -> (r: Vec<SearchResult>)
    requires
        scope.plan.well_formed(),
    ensures
        exists|matches: Seq<SearchResult>| #[trigger]
            recent_paths::recent_matches(*scope, list@, limit, matches)
                && query_rules::rule_put_first(
                r@,
                matches,
                raw_query@,
                rules@,
                state,
                scope.default_depth,
                scope.working_directory@,
                scope.include_explanation,
                scope.wording,
            ),
{
    let matches = recent_paths::collect_recent_path_matches_with_detail(scope, list, limit);
    proof {
        assert(recent_paths::recent_matches(*scope, list@, limit, matches@));
    }
    query_rules::prioritize_query_launch_rule_result(
        matches,
        raw_query,
        rules,
        state,
        scope.default_depth,
        scope.working_directory.as_str(),
        scope.include_explanation,
        &scope.wording,
    )
}

// ---------------------------------------------------------------------------
// What was found
// ---------------------------------------------------------------------------

/// An item that fitted a query, kept for the queries that it grows into.
#[derive(Debug, PartialEq, Eq)]
pub struct PreparedCandidate {
    pub item: LaunchItem,
    pub path_key: String,
    pub estimated_bytes: usize,
}

/// The sum of the first `n` numbers.
pub open spec fn sum_of(parts: Seq<usize>, n: int) -> int
    decreases n,
{
    if n <= 0 {
        0
    } else {
        sum_of(parts, n - 1) + parts[n - 1]
    }
}

impl PreparedCandidate {
    /// An item with the form in which its path is compared and the sizes of its parts.
    pub fn new(item: LaunchItem, own_size: usize, parts: &[usize]) -> (r: PreparedCandidate)
        ensures
            r.item == item,
            r.path_key@ == text::fold(item.path@),
            r.estimated_bytes == arith::min_int(
                own_size + sum_of(parts@, parts@.len() as int),
                usize::MAX as int,
            ),
    {
        let mut total: usize = own_size;
        let mut i: usize = 0;
        while i < parts.len()
            invariant
                i <= parts.len(),
                total == arith::min_int(own_size + sum_of(parts@, i as int), usize::MAX as int),
            decreases parts.len() - i,
        {
            total = total.saturating_add(parts[i]);
            i += 1;
        }
        let path_key = recents::recent_item_key(item.path.as_str());
        PreparedCandidate { item, path_key, estimated_bytes: total }
    }
}

/// The sizes of the first `n` items together.
pub open spec fn cached_bytes(cache: Seq<PreparedCandidate>, n: int) -> int
    decreases n,
{
    if n <= 0 {
        0
    } else {
        cached_bytes(cache, n - 1) + cache[n - 1].estimated_bytes
    }
}

proof fn lemma_cached_bytes_push(cache: Seq<PreparedCandidate>, item: PreparedCandidate, n: int)
    requires
        0 <= n <= cache.len(),
    ensures
        cached_bytes(cache.push(item), n) == cached_bytes(cache, n),
    decreases n,
{
    if n > 0 {
        lemma_cached_bytes_push(cache, item, n - 1);
    }
}

/// An item with a key is kept.
pub open spec fn keeps_key(cache: Seq<PreparedCandidate>, key: Seq<char>) -> bool {
    exists|i: int| 0 <= i < cache.len() && (#[trigger] cache[i]).path_key@ == key
}

/// The text score of a kept item.
pub open spec fn kept_fit(scope: SearchScope, kept: PreparedCandidate) -> Option<i32> {
    scope.name_fit(
        kept.item.folded_title@,
        kept.item.folded_stem@,
        kept.item.folded_parent@,
        kept.item.is_dir,
    )
}

/// The candidates of the first `n` kept items that fit and are not among keys.
pub open spec fn kept_candidates(
    scope: SearchScope,
    cache: Seq<PreparedCandidate>,
    keys: Set<Seq<char>>,
    n: int,
) -> Seq<RankedCandidate>
    decreases n,
{
    if n <= 0 {
        Seq::empty()
    } else {
        let before = kept_candidates(scope, cache, keys, n - 1);
        let kept = cache[n - 1];
        match kept_fit(scope, kept) {
            Some(text_score) => if keys.contains(kept.path_key@) {
                before
            } else {
                before.push(scope.candidate_of(kept.item, text_score))
            },
            None => before,
        }
    }
}

proof fn lemma_kept_candidates_push(
    scope: SearchScope,
    cache: Seq<PreparedCandidate>,
    item: PreparedCandidate,
    keys: Set<Seq<char>>,
    n: int,
)
    requires
        0 <= n <= cache.len(),
    ensures
        kept_candidates(scope, cache.push(item), keys, n) == kept_candidates(
            scope,
            cache,
            keys,
            n,
        ),
    decreases n,
{
    if n > 0 {
        lemma_kept_candidates_push(scope, cache, item, keys, n - 1);
    }
}

/// All candidates of a query: the rows it begins with, and behind them the kept items.
pub open spec fn all_candidates(
    scope: SearchScope,
    rows: Seq<SearchResult>,
    cache: Seq<PreparedCandidate>,
) -> Seq<RankedCandidate> {
    search_progress::row_candidates(rows) + kept_candidates(
        scope,
        cache,
        search_progress::row_keys(rows, rows.len() as int),
        cache.len() as int,
    )
}

// ---------------------------------------------------------------------------
// A session
// ---------------------------------------------------------------------------

/// Kept items have the keys of their paths, each its own, and all have been seen.
pub open spec fn cache_is_sound(cache: Seq<PreparedCandidate>, seen: Set<Seq<char>>) -> bool {
    &&& forall|i: int|
        0 <= i < cache.len() ==> (#[trigger] cache[i]).path_key@ == text::fold(cache[i].item.path@)
            && seen.contains(cache[i].path_key@)
    &&& forall|i: int, j: int|
        #![trigger cache[i], cache[j]]
        0 <= i < j < cache.len() ==> cache[i].path_key@ != cache[j].path_key@
}

/// A search that can go on when its query grows.
#[derive(Debug, PartialEq, Eq)]
pub struct RefinementSession {
    pub request: SearchWorkerRequest,
    pub scope: SearchScope,
    pub preview_limit: usize,
    pub query_version: u64,
    pub cache: Vec<PreparedCandidate>,
    pub cache_bytes: usize,
    pub cache_limit: usize,
    pub reusable: bool,
    pub scan_seen: KeySet,
    pub ranking_seen: KeySet,
    pub best: Vec<RankedCandidate>,
    pub scanned_total: usize,
    pub reused_candidates: usize,
    pub scan_done: bool,
    pub shutdown: bool,
}

/// Numbers about a session.
#[derive(Clone, Copy, Debug, PartialEq, Eq, Structural)]
pub struct RefinementMetrics {
    pub filesystem_entries: usize,
    pub cache_candidates: usize,
    pub cache_bytes: usize,
    pub reused_candidates: usize,
    pub full_scan_fallback: bool,
    pub query_version: u64,
    pub scan_done: bool,
}

/// Offers the rows that a search begins with.
fn begin_ranking(rows: Vec<SearchResult>, limit: usize) -> (r: (Vec<RankedCandidate>, KeySet))
    ensures
        r.0@ == ordering::offered_all(search_progress::row_candidates(rows@), limit),
        r.1.well_formed(),
        r.1@ == search_progress::row_keys(rows@, rows@.len() as int),
        search_progress::keeps_limit(r.0@, limit),
        search_progress::penalties_are_valid(r.0@),
{
    let (progress, _): (SearchProgress, Vec<RankedCandidate>) = SearchProgress::begin(
        rows,
        limit,
        false,
    );
    (progress.best, progress.seen)
}

impl RefinementSession {
    /// What holds of a session all along: what is kept is within its limit.
    pub open spec fn well_formed(&self) -> bool {
        &&& self.scope.well_formed()
        &&& self.scan_seen.well_formed()
        &&& self.ranking_seen.well_formed()
        &&& search_progress::keeps_limit(self.best@, self.preview_limit)
        &&& search_progress::penalties_are_valid(self.best@)
        &&& cache_is_sound(self.cache@, self.scan_seen@)
        &&& self.cache_bytes <= self.cache_limit
        &&& self.cache_bytes == arith::min_int(
            cached_bytes(self.cache@, self.cache@.len() as int),
            usize::MAX as int,
        )
    }

    /// The best are the best of all candidates: of the rows that the query began with
    /// and of the kept items.
    pub open spec fn ranks(&self, rows: Seq<SearchResult>) -> bool {
        &&& self.best@ == ordering::offered_all(
            all_candidates(self.scope, rows, self.cache@),
            self.preview_limit,
        )
        &&& forall|key: Seq<char>|
            #![trigger self.ranking_seen@.contains(key)]
            search_progress::row_keys(rows, rows.len() as int).contains(key) ==> self.ranking_seen@.contains(key)
        &&& forall|key: Seq<char>|
            #![trigger self.ranking_seen@.contains(key)]
            self.ranking_seen@.contains(key) ==> search_progress::row_keys(rows, rows.len() as int).contains(key)
                || keeps_key(self.cache@, key)
    }

    /// A session for a request, with the rows to begin with.
    pub fn start(
        request: SearchWorkerRequest,
        scope: SearchScope,
        rows: Vec<SearchResult>,
        cache_limit: usize,
        default_limit: usize,
    ) -> (r: RefinementSession)
        requires
            scope.well_formed(),
        ensures
            r.well_formed(),
            r.ranks(rows@),
            r.request == request,
            r.scope == scope,
            r.preview_limit == preview_limit(request.effective_limit, default_limit),
            r.query_version == 1,
            r.cache@.len() == 0,
            r.cache_bytes == 0,
            r.cache_limit == cache_limit,
            r.reusable,
            r.scan_seen@ == Set::<Seq<char>>::empty(),
            r.scanned_total == 0,
            r.reused_candidates == 0,
            !r.scan_done,
            !r.shutdown,
    {
        let limit: usize = refinement_preview_limit(request.effective_limit, default_limit);
        let ghost all = rows@;
        let (best, ranking_seen): (Vec<RankedCandidate>, KeySet) = begin_ranking(rows, limit);
        let r = RefinementSession {
            request,
            scope,
            preview_limit: limit,
            query_version: 1,
            cache: Vec::new(),
            cache_bytes: 0,
            cache_limit,
            reusable: true,
            scan_seen: KeySet::new(),
            ranking_seen,
            best,
            scanned_total: 0,
            reused_candidates: 0,
            scan_done: false,
            shutdown: false,
        };
        proof {
            assert(all_candidates(r.scope, all, r.cache@) =~= search_progress::row_candidates(all));
        }
        r
    }

    /// Whether the session can go on with a request.
    pub fn can_refine(&self, next: &SearchWorkerRequest) -> (r: bool)
        ensures
            r == (!self.shutdown && self.reusable && compatible(self.request, *next)),
    {
        !self.shutdown && self.reusable && refinement_requests_compatible(&self.request, next)
    }

    /// Numbers about the session.
    pub fn metrics(&self) -> (r: RefinementMetrics)
        ensures
            r == (RefinementMetrics {
                filesystem_entries: self.scanned_total,
                cache_candidates: self.cache@.len() as usize,
                cache_bytes: self.cache_bytes,
                reused_candidates: self.reused_candidates,
                full_scan_fallback: !self.reusable,
                query_version: self.query_version,
                scan_done: self.scan_done,
            }),
    {
        RefinementMetrics {
            filesystem_entries: self.scanned_total,
            cache_candidates: self.cache.len(),
            cache_bytes: self.cache_bytes,
            reused_candidates: self.reused_candidates,
            full_scan_fallback: !self.reusable,
            query_version: self.query_version,
            scan_done: self.scan_done,
        }
    }

    /// Ends the session and lets go of all that it has found.
    pub fn invalidate(&mut self)
        requires
            old(self).well_formed(),
        ensures
            final(self).well_formed(),
            final(self).shutdown,
            final(self).cache@.len() == 0,
            final(self).cache_bytes == 0,
            final(self).best@.len() == 0,
            final(self).scan_seen@ == Set::<Seq<char>>::empty(),
            final(self).ranking_seen@ == Set::<Seq<char>>::empty(),
            final(self).request == old(self).request,
            final(self).scope == old(self).scope,
            final(self).scanned_total == old(self).scanned_total,
            final(self).scan_done == old(self).scan_done,
            final(self).reusable == old(self).reusable,
            final(self).query_version == old(self).query_version,
            final(self).preview_limit == old(self).preview_limit,
            final(self).cache_limit == old(self).cache_limit,
            final(self).reused_candidates == old(self).reused_candidates,
    {
        self.shutdown = true;
        self.cache = Vec::new();
        self.cache_bytes = 0;
        self.best = Vec::new();
        self.scan_seen = KeySet::new();
        self.ranking_seen = KeySet::new();
    }

    /// Everything has been looked at. Tells whether the session still goes on.
    pub fn finish_scan(&mut self) -> (r: bool)
        ensures
            r == !old(self).shutdown,
            *final(self) == (if old(self).shutdown {
                *old(self)
            } else {
                (RefinementSession { scan_done: true, ..*old(self) })
            }),
    {
        if self.shutdown {
            return false;
        }
        self.scan_done = true;
        true
    }
}


// ---------------------------------------------------------------------------
// Another query
// ---------------------------------------------------------------------------

/// The text score of a kept item.
fn score_kept(scope: &SearchScope, kept: &PreparedCandidate) -> (r: Option<i32>)
    requires
        scope.well_formed(),
    ensures
        r == kept_fit(*scope, *kept),
{
    let name = PreparedCandidateName {
        title: kept.item.title.clone(),
        folded_title: kept.item.folded_title.clone(),
        folded_stem: kept.item.folded_stem.clone(),
    };
    scope.prepared.score_candidate_name(
        &name,
        kept.item.folded_parent.as_str(),
        kept.item.is_dir,
        &scope.scoring,
    )
}

/// Ranks the rows to begin with and the kept items.
fn rank_kept(
    scope: &SearchScope,
    cache: &Vec<PreparedCandidate>,
    rows: Vec<SearchResult>,
    limit: usize,
    Ghost(scan_seen): Ghost<Set<Seq<char>>>,
) -> (r: (Vec<RankedCandidate>, KeySet))
    requires
        scope.well_formed(),
        cache_is_sound(cache@, scan_seen),
    ensures
        r.0@ == ordering::offered_all(all_candidates(*scope, rows@, cache@), limit),
        search_progress::keeps_limit(r.0@, limit),
        search_progress::penalties_are_valid(r.0@),
        r.1.well_formed(),
        forall|key: Seq<char>| #[trigger]
            r.1@.contains(key) <==> (search_progress::row_keys(rows@, rows@.len() as int).contains(key)
                || keeps_key(cache@, key)),
{
    let ghost begun = search_progress::row_candidates(rows@);
    let ghost keys = search_progress::row_keys(rows@, rows@.len() as int);
    let (best, seen): (Vec<RankedCandidate>, KeySet) = begin_ranking(rows, limit);
    let mut progress = SearchProgress { seen, best, scanned_total: 0 };
    let mut i: usize = 0;
    proof {
        assert(begun + kept_candidates(*scope, cache@, keys, 0) =~= begun);
    }
    while i < cache.len()
        invariant
            scope.well_formed(),
            cache_is_sound(cache@, scan_seen),
            i <= cache.len(),
            progress.well_formed(limit),
            progress.best@ == ordering::offered_all(
                begun + kept_candidates(*scope, cache@, keys, i as int),
                limit,
            ),
            forall|key: Seq<char>| #[trigger]
                progress.seen@.contains(key) <==> (keys.contains(key) || exists|k: int|
                    0 <= k < i && (#[trigger] cache@[k]).path_key@ == key),
        decreases cache.len() - i,
    {
        let kept = &cache[i];
        let ghost known = progress.seen@;
        proof {
            assert(known.contains(kept.path_key@) == keys.contains(kept.path_key@));
        }
        let is_new = progress.seen.insert(kept.path_key.as_str());
        proof {
            assert forall|key: Seq<char>| #[trigger]
                progress.seen@.contains(key) <==> (keys.contains(key) || exists|k: int|
                    0 <= k < i + 1 && (#[trigger] cache@[k]).path_key@ == key) by {
                assert(cache@[i as int].path_key@ == kept.path_key@);
                assert(progress.seen@.contains(key) == (known.contains(key) || key
                    == kept.path_key@));
            }
        }
        let ghost before = begun + kept_candidates(*scope, cache@, keys, i as int);
        let ghost after = begun + kept_candidates(*scope, cache@, keys, i + 1);
        if is_new {
            match score_kept(scope, kept) {
                Some(text_score) => {
                    let candidate = scope.make_candidate(
                        kept.item.copy(),
                        kept.path_key.as_str(),
                        text_score,
                    );
                    proof {
                        assert(after =~= before.push(candidate));
                        assert(after.drop_last() =~= before);
                    }
                    let _ = progress.add_to_best(candidate, limit);
                },
                None => {
                    proof {
                        assert(after =~= before);
                    }
                },
            }
        } else {
            proof {
                assert(after =~= before);
            }
        }
        i += 1;
    }
    (progress.best, progress.seen)
}

/// All candidates of a query in order.
pub fn refinement_all_results(session: &RefinementSession, rows: Vec<SearchResult>) -> (r: Vec<
    RankedCandidate,
>)
    requires
        session.well_formed(),
    ensures
        r@ == ordering::ordered(all_candidates(session.scope, rows@, session.cache@)),
{
    let (list, _): (Vec<RankedCandidate>, KeySet) = rank_kept(
        &session.scope,
        &session.cache,
        rows,
        usize::MAX,
        Ghost(session.scan_seen@),
    );
    proof {
        lemma_unlimited_offers(all_candidates(session.scope, rows@, session.cache@));
    }
    ordering::sort_in_order(list)
}

/// Without a limit all that is offered is kept in the order of offering.
proof fn lemma_unlimited_offers(items: Seq<RankedCandidate>)
    ensures
        ordering::offered_all(items, usize::MAX) == items,
    decreases items.len(),
{
    if items.len() > 0 {
        lemma_unlimited_offers(items.drop_last());
        assert(items.drop_last().push(items.last()) =~= items);
    }
}

/// The version behind a version; never zero.
pub open spec fn next_version(version: u64) -> int {
    if version == u64::MAX {
        1
    } else {
        version + 1
    }
}

impl RefinementSession {
    /// Goes on with a query that the earlier one grew into, with the rows to begin
    /// with: the kept items are ranked anew, and nothing is looked for again. Refuses
    /// where it cannot.
    pub fn update(&mut self, next: SearchWorkerRequest, rows: Vec<SearchResult>, default_limit: usize) -> (r:
        bool)
        requires
            old(self).well_formed(),
        ensures
            final(self).well_formed(),
            r == (!old(self).shutdown && old(self).reusable && compatible(old(self).request, next)),
            !r ==> *final(self) == *old(self),
            r ==> {
                &&& final(self).ranks(rows@)
                &&& final(self).request == next
                &&& query::is_effective(final(self).scope.spec, next.spec)
                &&& final(self).scope.scoring == old(self).scope.scoring
                &&& final(self).scope.history == old(self).scope.history
                &&& final(self).preview_limit == preview_limit(next.effective_limit, default_limit)
                &&& final(self).query_version == next_version(old(self).query_version)
                &&& final(self).reused_candidates == old(self).cache@.len()
                &&& final(self).cache == old(self).cache
                &&& final(self).cache_bytes == old(self).cache_bytes
                &&& final(self).cache_limit == old(self).cache_limit
                &&& final(self).reusable == old(self).reusable
                &&& final(self).scan_seen == old(self).scan_seen
                &&& final(self).scanned_total == old(self).scanned_total
                &&& final(self).scan_done == old(self).scan_done
                &&& final(self).shutdown == old(self).shutdown
            },
    {
        if !self.can_refine(&next) {
            return false;
        }
        self.query_version = if self.query_version == u64::MAX {
            1
        } else {
            self.query_version + 1
        };
        let effective = next.spec.effective_for_scoring();
        let prepared = PreparedQuery::new(&effective, &self.scope.scoring);
        self.preview_limit = refinement_preview_limit(next.effective_limit, default_limit);
        self.scope.spec = effective;
        self.scope.prepared = prepared;
        self.request = next;
        self.reused_candidates = self.cache.len();
        let (best, ranking_seen): (Vec<RankedCandidate>, KeySet) = rank_kept(
            &self.scope,
            &self.cache,
            rows,
            self.preview_limit,
            Ghost(self.scan_seen@),
        );
        self.best = best;
        self.ranking_seen = ranking_seen;
        true
    }
}


// ---------------------------------------------------------------------------
// What is looked at
// ---------------------------------------------------------------------------

/// What became of the name of a path.
#[derive(Debug, PartialEq, Eq)]
pub enum NameCheck {
    /// The session has ended.
    Stopped,
    /// It does not fit.
    Unmatched,
    /// It fits the query of a version.
    Matched { name: PreparedCandidateName, version: u64 },
}

impl RefinementSession {
    /// Looks at the name of a path.
    pub fn check_name(
        &mut self,
        path: &str,
        file_name: &Option<String>,
        is_dir: bool,
        directory: &DirectoryScanContext,
    ) -> (r: NameCheck)
        requires
            old(self).well_formed(),
        ensures
            final(self).well_formed(),
            ({
                let name = text::optional(*file_name);
                let nameless = items::candidate_title(path@, name).len() == 0;
                let counted = RefinementSession {
                    scanned_total: arith::min_int(
                        old(self).scanned_total + 1,
                        usize::MAX as int,
                    ) as usize,
                    ..*old(self)
                };
                if nameless {
                    r is Unmatched && *final(self) == counted
                } else if old(self).shutdown {
                    r is Stopped && *final(self) == *old(self)
                } else {
                    &&& *final(self) == counted
                    &&& match scan::path_fit(old(self).scope, path@, name, is_dir, *directory) {
                        None => r is Unmatched,
                        Some(_) => r matches NameCheck::Matched { name: found, version }
                            && items::names(found, path@, name) && version == old(self).query_version,
                    }
                }
            }),
    {
        let name = match PreparedCandidateName::from_path_and_file_name(path, file_name) {
            Some(name) => name,
            None => {
                self.scanned_total = self.scanned_total.saturating_add(1);
                return NameCheck::Unmatched;
            },
        };
        if self.shutdown {
            return NameCheck::Stopped;
        }
        self.scanned_total = self.scanned_total.saturating_add(1);
        let matched = self.scope.prepared.score_candidate_name(
            &name,
            directory.folded_parent.as_str(),
            is_dir,
            &self.scope.scoring,
        );
        match matched {
            Some(_) => NameCheck::Matched { name, version: self.query_version },
            None => NameCheck::Unmatched,
        }
    }

    /// The item is left out of the ranking: it does not fit the query, or even the most
    /// that it can score is below the threshold.
    pub open spec fn leaves_out(&self, candidate: PreparedCandidate) -> bool {
        match kept_fit(self.scope, candidate) {
            None => true,
            Some(text_score) => self.request.effective_limit != usize::MAX && results::is_hopeless(
                self.scope.bound_of(candidate.item, text_score),
                results::threshold_of(self.best@, self.preview_limit),
            ),
        }
    }

    /// There is room to keep an item.
    pub open spec fn has_room(&self, candidate: PreparedCandidate) -> bool {
        arith::min_int(self.cache_bytes + candidate.estimated_bytes, usize::MAX as int)
            <= self.cache_limit
    }

    /// Takes up an item whose name fitted, unless it was seen before or the session has
    /// ended. It is kept where there is room, also where it is left out of the ranking;
    /// where there is none, the session cannot go on with another query. The item is
    /// ranked for the query of now, which may be another than the one it was found for.
    /// As long as all is kept and no history score is above its ceiling, the best stay
    /// the best of all candidates.
    pub fn take_candidate(&mut self, candidate: PreparedCandidate) -> (r: bool)
        requires
            old(self).well_formed(),
            candidate.path_key@ == text::fold(candidate.item.path@),
        ensures
            final(self).well_formed(),
            r == (!old(self).shutdown && !old(self).scan_seen@.contains(candidate.path_key@)),
            !r ==> final(self).scan_seen@ == old(self).scan_seen@ && final(self).cache == old(self).cache && final(self).best == old(self).best && final(self).reusable == old(self).reusable && final(self).cache_bytes == old(self).cache_bytes && final(self).ranking_seen == old(self).ranking_seen,
            final(self).request == old(self).request,
            final(self).scope == old(self).scope,
            final(self).preview_limit == old(self).preview_limit,
            final(self).query_version == old(self).query_version,
            final(self).cache_limit == old(self).cache_limit,
            final(self).scanned_total == old(self).scanned_total,
            final(self).reused_candidates == old(self).reused_candidates,
            final(self).scan_done == old(self).scan_done,
            final(self).shutdown == old(self).shutdown,
            r ==> {
                let room = old(self).reusable && old(self).has_room(candidate);
                let left_out = old(self).leaves_out(candidate);
                let ranked = old(self).ranking_seen@.contains(candidate.path_key@);
                &&& final(self).scan_seen@ == old(self).scan_seen@.insert(candidate.path_key@)
                &&& final(self).reusable == room
                &&& if room {
                    final(self).cache@ == old(self).cache@.push(candidate)
                } else {
                    final(self).cache@ == old(self).cache@ && final(self).cache_bytes == old(self).cache_bytes
                }
                &&& final(self).ranking_seen@ == (if left_out {
                    old(self).ranking_seen@
                } else {
                    old(self).ranking_seen@.insert(candidate.path_key@)
                })
                &&& final(self).best@ == (if left_out || ranked {
                    old(self).best@
                } else {
                    ordering::offered(
                        old(self).best@,
                        old(self).scope.candidate_of(
                            candidate.item,
                            kept_fit(old(self).scope, candidate)->0,
                        ),
                        old(self).preview_limit,
                    )
                })
            },
            forall|rows: Seq<SearchResult>|
                old(self).scope.keeps_ceiling() && old(self).ranks(rows) && (r ==> final(self).reusable) ==> #[trigger] final(self).ranks(rows),
    {
        let ghost before = *self;
        if self.shutdown {
            return false;
        }
        let ghost key = candidate.path_key@;
        proof {
            assert(keeps_key(self.cache@, key) ==> self.scan_seen@.contains(key));
        }
        if !self.scan_seen.insert(candidate.path_key.as_str()) {
            proof {
                assert(self.scan_seen@ =~= before.scan_seen@);
            }
            return false;
        }
        let fit = score_kept(&self.scope, &candidate);
        let mut left_out = true;
        if let Some(text_score) = fit {
            left_out = self.request.effective_limit != usize::MAX && {
                let bound: i32 = crate::breakdown::heuristic_score_upper_bound(
                    &candidate.item,
                    text_score,
                    &self.scope.prepared,
                    &self.scope.scoring,
                );
                let threshold: u64 = results::bounded_ranked_threshold(
                    &self.best,
                    self.preview_limit,
                );
                results::should_branch_prune(bound, threshold)
            };
            if !left_out && self.ranking_seen.insert(candidate.path_key.as_str()) {
                let ranked = self.scope.make_candidate(
                    candidate.item.copy(),
                    candidate.path_key.as_str(),
                    text_score,
                );
                self.add_to_best(ranked);
            }
        }
        proof {
            assert(left_out == before.leaves_out(candidate));
            if left_out || before.ranking_seen@.contains(key) {
                assert(self.best@ == before.best@);
            }
            if !left_out {
                assert(self.ranking_seen@ =~= before.ranking_seen@.insert(key));
            }
        }
        if self.reusable {
            let next_bytes: usize = self.cache_bytes.saturating_add(candidate.estimated_bytes);
            if next_bytes <= self.cache_limit {
                self.cache_bytes = next_bytes;
                proof {
                    lemma_cached_bytes_push(
                        self.cache@,
                        candidate,
                        self.cache@.len() as int,
                    );
                }
                self.cache.push(candidate);
            } else {
                self.reusable = false;
            }
        }
        proof {
            assert forall|rows: Seq<SearchResult>|
                before.scope.keeps_ceiling() && before.ranks(rows)
                    && self.reusable implies #[trigger] self.ranks(rows) by {
                before.lemma_ranks_go_on(*self, candidate, rows);
            }
        }
        true
    }

    /// Offers a candidate to the best.
    fn add_to_best(&mut self, candidate: RankedCandidate)
        requires
            old(self).well_formed_but_seen(),
            results::penalty_is_valid(candidate),
        ensures
            final(self).well_formed_but_seen(),
            final(self).best@ == ordering::offered(
                old(self).best@,
                candidate,
                old(self).preview_limit,
            ),
            *final(self) == (RefinementSession { best: final(self).best, ..*old(self) }),
    {
        let mut progress = SearchProgress {
            seen: KeySet::new(),
            best: Vec::new(),
            scanned_total: 0,
        };
        std::mem::swap(&mut self.best, &mut progress.best);
        let _ = progress.add_to_best(candidate, self.preview_limit);
        std::mem::swap(&mut self.best, &mut progress.best);
    }

    /// The best keep their limit.
    spec fn well_formed_but_seen(&self) -> bool {
        &&& search_progress::keeps_limit(self.best@, self.preview_limit)
        &&& search_progress::penalties_are_valid(self.best@)
    }

    /// Taking up one more item, the best stay the best of all candidates.
    proof fn lemma_ranks_go_on(&self, after: RefinementSession, candidate: PreparedCandidate, rows: Seq<
        SearchResult,
    >)
        requires
            self.well_formed(),
            self.ranks(rows),
            self.scope.keeps_ceiling(),
            candidate.path_key@ == text::fold(candidate.item.path@),
            !self.scan_seen@.contains(candidate.path_key@),
            after.scope == self.scope,
            after.preview_limit == self.preview_limit,
            after.cache@ == self.cache@.push(candidate),
            ({
                let left_out = self.leaves_out(candidate);
                let ranked = self.ranking_seen@.contains(candidate.path_key@);
                &&& after.ranking_seen@ == (if left_out {
                    self.ranking_seen@
                } else {
                    self.ranking_seen@.insert(candidate.path_key@)
                })
                &&& after.best@ == (if left_out || ranked {
                    self.best@
                } else {
                    ordering::offered(
                        self.best@,
                        self.scope.candidate_of(
                            candidate.item,
                            kept_fit(self.scope, candidate)->0,
                        ),
                        self.preview_limit,
                    )
                })
            }),
        ensures
            after.ranks(rows),
    {
        let keys = search_progress::row_keys(rows, rows.len() as int);
        let key = candidate.path_key@;
        let n = self.cache@.len() as int;
        assert(!keeps_key(self.cache@, key));
        assert(self.ranking_seen@.contains(key) == keys.contains(key));
        lemma_kept_candidates_push(self.scope, self.cache@, candidate, keys, n);
        let was = all_candidates(self.scope, rows, self.cache@);
        let now = all_candidates(self.scope, rows, after.cache@);
        assert forall|k: Seq<char>| keeps_key(self.cache@, k) implies keeps_key(after.cache@, k) by {
            let i = choose|i: int| 0 <= i < n && (#[trigger] self.cache@[i]).path_key@ == k;
            assert(after.cache@[i] == self.cache@[i]);
        }
        assert(keeps_key(after.cache@, key)) by {
            assert(after.cache@[n] == candidate);
        }
        match kept_fit(self.scope, candidate) {
            None => {
                assert(now =~= was);
            },
            Some(text_score) => if keys.contains(key) {
                assert(now =~= was);
            } else {
                let made = self.scope.candidate_of(candidate.item, text_score);
                assert(now =~= was.push(made));
                assert(now.drop_last() =~= was);
                if self.leaves_out(candidate) {
                    results::lemma_pruning_is_safe(
                        self.best@,
                        candidate.item,
                        self.scope.prepared.folded_search_text@,
                        self.scope.spec.scoring_time_unix_seconds,
                        text_score,
                        self.scope.prepared,
                        collect::history_score(self.scope.history, text::fold(candidate.item.path@)),
                        false,
                        self.scope.scoring,
                        self.preview_limit,
                    );
                    search_progress::lemma_unentered_stays(self.best@, made, self.preview_limit);
                }
            },
        }
    }
}

// ---------------------------------------------------------------------------
// Handing over
// ---------------------------------------------------------------------------

/// How what was found is handed over.
#[derive(Clone, Copy, Debug, PartialEq, Eq, Structural)]
pub enum RefinementPublish {
    /// Not at all: nobody waits for it.
    Nothing,
    /// A whole search is made in its place, as not all was kept.
    SearchAgain,
    /// All results are stored, and the best handed over with them.
    Store,
    /// The best are handed over.
    Batch { stage: SearchStage, done: bool },
}

impl RefinementSession {
    /// How what was found is handed over.
    pub fn publish_action(&self, done: bool) -> (r: RefinementPublish)
        ensures
            r == (if self.request.window == 0 {
                RefinementPublish::Nothing
            } else if self.request.effective_limit == usize::MAX && done {
                if self.reusable {
                    RefinementPublish::Store
                } else {
                    RefinementPublish::SearchAgain
                }
            } else {
                RefinementPublish::Batch {
                    stage: if done {
                        SearchStage::Done
                    } else {
                        SearchStage::Folders
                    },
                    done,
                }
            }),
            r is Nothing <==> self.request.window == 0,
            r is Store ==> done && self.reusable && self.request.effective_limit == usize::MAX,
            r is SearchAgain ==> done && !self.reusable && self.request.effective_limit
                == usize::MAX,
            r matches RefinementPublish::Batch { stage, done: last } ==> last == done && (stage
                == SearchStage::Done <==> done),
    {
        if self.request.window == 0 {
            RefinementPublish::Nothing
        } else if self.request.effective_limit == usize::MAX && done {
            if self.reusable {
                RefinementPublish::Store
            } else {
                RefinementPublish::SearchAgain
            }
        } else {
            RefinementPublish::Batch {
                stage: if done {
                    SearchStage::Done
                } else {
                    SearchStage::Folders
                },
                done,
            }
        }
    }

    /// The rows of the best.
    pub fn rows(&self) -> (r: Vec<SearchResult>)
        requires
            self.well_formed(),
        ensures
            r@.len() == self.best@.len(),
            forall|i: int|
                0 <= i < r@.len() ==> search_progress::is_row_of(
                    #[trigger] r@[i],
                    self.scope,
                    self.best@[i],
                    self.request.include_score_detail,
                    self.request.include_explanation,
                ),
    {
        search_progress::materialize_ranked_candidates(
            &self.scope,
            &self.best,
            self.request.include_score_detail,
            self.request.include_explanation,
        )
    }
}



// ---------------------------------------------------------------------------
// What is kept is enough
// ---------------------------------------------------------------------------

/// What stands in the place of a word of a query that has grown.
proof fn lemma_words_of_grown(previous: Seq<char>, next: Seq<char>, i: int)
    requires
        grows_into(previous, next),
        text::trimmed(previous) != text::trimmed(next),
        0 <= i < text::words(previous).len(),
    ensures
        text::words(next).len() == text::words(previous).len(),
        text::has_prefix(text::words(next)[i], text::words(previous)[i]),
        text::words(previous)[i].len() > 0,
        text::trimmed(text::words(previous)[i]) == text::words(previous)[i],
        text::trimmed(text::words(next)[i]) == text::words(next)[i],
{
    let a = text::words(previous);
    let b = text::words(next);
    text::lemma_words_trimmed(previous);
    text::lemma_words_trimmed(next);
    text::lemma_words_occur(previous);
    text::lemma_words_occur(next);
    if i < a.len() - 1 {
        assert(a.drop_last()[i] == b.drop_last()[i]);
        assert(a[i].subrange(0, a[i].len() as int) =~= a[i]);
    }
}

/// A word of a query is found where the query that it has grown into is found.
proof fn lemma_word_is_found(
    previous: Seq<char>,
    next: Seq<char>,
    i: int,
    title: Seq<char>,
    scoring: ScoringConfig,
)
    requires
        grows_into(previous, next),
        text::trimmed(previous) != text::trimmed(next),
        0 <= i < text::words(previous).len(),
        fuzzy::fuzzy(text::trimmed(next), title, scoring) is Some,
    ensures
        fuzzy::fuzzy(text::words(previous)[i], title, scoring) is Some,
{
    let q = text::trimmed(next);
    let longer = text::words(next)[i];
    let word = text::words(previous)[i];
    lemma_words_of_grown(previous, next, i);
    text::lemma_words_trimmed(next);
    text::lemma_words_occur(q);
    assert(text::has_infix(q, longer));
    let p = choose|p: int| text::occurs_at(q, longer, p);
    fuzzy::lemma_infix_is_found(q, title, scoring, p, p + longer.len());
    let n = word.len() as int;
    fuzzy::lemma_prefix_is_found(longer, title, scoring, n);
    assert(longer.take(n) =~= longer.subrange(0, n));
}

/// Every name that fits a query fits the queries that it has grown from, so the names
/// that were kept for them are all that can fit. A match of a word is taken to be worth
/// something: a name whose match is worth nothing is not kept.
pub proof fn lemma_grown_query_fits_less(
    previous: Seq<char>,
    next: Seq<char>,
    title: Seq<char>,
    stem: Seq<char>,
    parent: Seq<char>,
    is_dir: bool,
    scoring: ScoringConfig,
)
    requires
        grows_into(previous, next),
        text::words(previous).len() <= i32::MAX,
        forall|i: int|
            0 <= i < text::words(previous).len() ==> scoring::is_worth(
                #[trigger] text::words(previous)[i],
                title,
                scoring,
            ),
        scoring::name_score(next, title, stem, parent, is_dir, scoring) is Some,
    ensures
        scoring::name_score(previous, title, stem, parent, is_dir, scoring) is Some,
{
    if text::trimmed(previous) == text::trimmed(next) {
        scoring::lemma_name_score_trimmed(previous, title, stem, parent, is_dir, scoring);
        scoring::lemma_name_score_trimmed(next, title, stem, parent, is_dir, scoring);
    } else {
        let a = text::words(previous);
        let b = text::words(next);
        text::lemma_words_trimmed(previous);
        text::lemma_words_trimmed(next);
        lemma_words_of_grown(previous, next, 0);
        if scoring::token_match(b, title, parent, scoring) is Some {
            scoring::lemma_token_match_is(b, title, parent, scoring);
            scoring::lemma_token_match_is(a, title, parent, scoring);
            assert forall|i: int| 0 <= i < a.len() implies scoring::token_fits(
                #[trigger] a[i],
                title,
                parent,
                scoring,
            ) by {
                lemma_words_of_grown(previous, next, i);
                assert(scoring::token_fits(b[i], title, parent, scoring));
                scoring::lemma_shorter_word_fits(a[i], b[i], title, parent, scoring);
            }
            let k = choose|k: int|
                0 <= k < b.len() && scoring::text_score(#[trigger] b[k], title, scoring) is Some;
            lemma_words_of_grown(previous, next, k);
            scoring::lemma_shorter_word_fits(a[k], b[k], title, parent, scoring);
            assert(scoring::text_score(a[k], title, scoring) is Some);
        } else {
            assert(scoring::text_score(next, title, scoring) is Some);
            assert(text::trimmed(next).len() > 0) by {
                if text::trimmed(next).len() == 0 {
                    assert(text::words(text::trimmed(next)).len() == 0);
                }
            }
            assert forall|i: int| 0 <= i < a.len() implies scoring::text_score(
                #[trigger] a[i],
                title,
                scoring,
            ) is Some by {
                lemma_word_is_found(previous, next, i, title, scoring);
                assert(scoring::is_worth(a[i], title, scoring));
            }
            if a.len() >= 2 {
                scoring::lemma_token_match_is(a, title, parent, scoring);
                assert forall|i: int| 0 <= i < a.len() implies scoring::token_fits(
                    #[trigger] a[i],
                    title,
                    parent,
                    scoring,
                ) by {
                    assert(scoring::text_score(a[i], title, scoring) is Some);
                }
                assert(scoring::text_score(a[0], title, scoring) is Some);
            } else {
                let q = text::trimmed(previous);
                text::lemma_trimmed_idempotent(previous);
                text::lemma_one_word(q);
                assert(a[0] == q);
                assert(scoring::text_score(a[0], title, scoring) is Some);
            }
        }
    }
}

// ---------------------------------------------------------------------------
// Growing queries
// ---------------------------------------------------------------------------

/// A query grows into another only where it has as many words, all but the last are the same,
/// and the last is longer; a query that was trimmed differently stays the same.
pub proof fn lemma_only_the_last_word_grows(previous: Seq<char>, next: Seq<char>)
    ensures
        text::trimmed(previous) == text::trimmed(next) ==> grows_into(previous, next),
        grows_into(previous, next) && text::trimmed(previous) != text::trimmed(next) ==> {
            let a = text::words(text::trimmed(previous));
            let b = text::words(text::trimmed(next));
            &&& a.len() == b.len() > 0
            &&& forall|i: int| 0 <= i < a.len() - 1 ==> a[i] == #[trigger] b[i]
            &&& exists|more: Seq<char>| more.len() > 0 && b.last() == a.last() + more
        },
        ({
            let a = text::words(text::trimmed(previous));
            let b = text::words(text::trimmed(next));
            a.len() == b.len() && a.len() > 0 && (forall|i: int|
                0 <= i < a.len() - 1 ==> a[i] == #[trigger] b[i]) && (exists|more: Seq<char>|
                more.len() > 0 && b.last() == a.last() + more)
        }) ==> grows_into(previous, next),
{
    let a = text::words(text::trimmed(previous));
    let b = text::words(text::trimmed(next));
    if grows_into(previous, next) && text::trimmed(previous) != text::trimmed(next) {
        assert forall|i: int| 0 <= i < a.len() - 1 implies a[i] == #[trigger] b[i] by {
            assert(a.drop_last()[i] == b.drop_last()[i]);
        }
        let n = a.last().len() as int;
        let more = b.last().skip(n);
        assert(b.last().subrange(0, n) == a.last());
        assert(b.last() =~= a.last() + more);
    }
    if a.len() == b.len() && a.len() > 0 && (forall|i: int|
        0 <= i < a.len() - 1 ==> a[i] == #[trigger] b[i]) && (exists|more: Seq<char>|
        more.len() > 0 && b.last() == a.last() + more) {
        let more = choose|more: Seq<char>| more.len() > 0 && b.last() == a.last() + more;
        assert(b.last().subrange(0, a.last().len() as int) =~= a.last());
        assert(a.drop_last() =~= b.drop_last());
    }
}

/// A session goes on with a query only where nothing but the query has changed: both are
/// searched for in the folders, and keywords, threads, folders, scores, history and rules are
/// those of before.
pub proof fn lemma_a_session_goes_on(previous: SearchWorkerRequest, next: SearchWorkerRequest)
    ensures
        compatible(previous, next) ==> previous.spec.mode == SearchQueryMode::NormalSearch
            && next.spec.mode == SearchQueryMode::NormalSearch && text::texts(
            previous.spec.modifiers@,
        ) == text::texts(next.spec.modifiers@) && previous.root_plan == next.root_plan
            && previous.scoring == next.scoring && previous.recent_items == next.recent_items
            && previous.query_launch_rules == next.query_launch_rules && previous.search_threads
            == next.search_threads && grows_into(
            previous.spec.folded_search_text@,
            next.spec.folded_search_text@,
        ),
{
}

/// Sizes add up.
pub proof fn lemma_sizes_add_up(a: Seq<PreparedCandidate>, b: PreparedCandidate, n: int)
    requires
        0 <= n <= a.len(),
    ensures
        cached_bytes(a.push(b), n) == cached_bytes(a, n),
        cached_bytes(a.push(b), a.len() as int + 1) == cached_bytes(a, a.len() as int) + b.estimated_bytes,
        cached_bytes(a, 0) == 0,
    decreases n,
{
    lemma_bytes_of_front(a, b, n);
    lemma_bytes_of_front(a, b, a.len() as int);
}

proof fn lemma_bytes_of_front(a: Seq<PreparedCandidate>, b: PreparedCandidate, n: int)
    requires
        0 <= n <= a.len(),
    ensures
        cached_bytes(a.push(b), n) == cached_bytes(a, n),
    decreases n,
{
    if n > 0 {
        lemma_bytes_of_front(a, b, n - 1);
    }
}

/// A version that follows another is not nothing, and it is another.
pub proof fn lemma_versions_differ(version: u64)
    ensures
        0 < next_version(version) <= u64::MAX,
        next_version(version) != version,
        version < u64::MAX ==> next_version(version) == version + 1,
{
}

/// Of what was kept, the candidates are those that fit the new query and are not shown
/// already, in their order.
pub proof fn lemma_kept_candidates(
    scope: SearchScope,
    cache: Seq<PreparedCandidate>,
    keys: Set<Seq<char>>,
    n: int,
)
    requires
        0 <= n <= cache.len(),
    ensures
        ({
            let wanted = |p: int|
                kept_fit(scope, cache[p]) is Some && !keys.contains(cache[p].path_key@);
            exists|from: Seq<int>| #[trigger]
                places::picks_all(from, n, wanted) && kept_candidates(scope, cache, keys, n)
                    == Seq::new(
                    from.len(),
                    |i: int| scope.candidate_of(cache[from[i]].item, kept_fit(scope, cache[from[i]])->0),
                )
        }),
    decreases n,
{
    let wanted = |p: int| kept_fit(scope, cache[p]) is Some && !keys.contains(cache[p].path_key@);
    if n > 0 {
        lemma_kept_candidates(scope, cache, keys, n - 1);
        let from = choose|from: Seq<int>| #[trigger]
            places::picks_all(from, n - 1, wanted) && kept_candidates(scope, cache, keys, n - 1)
                == Seq::new(
                from.len(),
                |i: int| scope.candidate_of(cache[from[i]].item, kept_fit(scope, cache[from[i]])->0),
            );
        places::lemma_pick_one_more(from, n - 1, wanted);
        let next = if wanted(n - 1) {
            from.push(n - 1)
        } else {
            from
        };
        assert(places::picks_all(next, n, wanted));
        assert(kept_candidates(scope, cache, keys, n) =~= Seq::new(
            next.len(),
            |i: int| scope.candidate_of(cache[next[i]].item, kept_fit(scope, cache[next[i]])->0),
        ));
    } else {
        let from = Seq::<int>::empty();
        assert(places::picks_all(from, n, wanted));
        assert(kept_candidates(scope, cache, keys, n) =~= Seq::new(
            from.len(),
            |i: int| scope.candidate_of(cache[from[i]].item, kept_fit(scope, cache[from[i]])->0),
        ));
    }
}

/// A session shows as many results as are asked for, and the usual number where all are.
pub proof fn lemma_how_many_are_shown(effective_limit: usize, default_limit: usize)
    ensures
        0 < effective_limit < usize::MAX ==> preview_limit(effective_limit, default_limit)
            == effective_limit,
        effective_limit == usize::MAX && default_limit > 0 ==> preview_limit(
            effective_limit,
            default_limit,
        ) == default_limit,
        preview_limit(effective_limit, default_limit) >= 1,
{
}

/// Only queries that are searched for in the folders go on, with the same keywords, and where
/// the one grows into the other; every such query goes on with itself.
pub proof fn lemma_which_queries_go_on(previous: SearchQuerySpec, next: SearchQuerySpec)
    ensures
        allows_refinement(previous, next) ==> previous.mode == SearchQueryMode::NormalSearch
            && next.mode == SearchQueryMode::NormalSearch && text::texts(previous.modifiers@)
            == text::texts(next.modifiers@) && text::texts(previous.scoring_modifiers@)
            == text::texts(next.scoring_modifiers@) && grows_into(
            previous.folded_search_text@,
            next.folded_search_text@,
        ),
        previous.mode == SearchQueryMode::NormalSearch ==> allows_refinement(previous, previous),
{
    lemma_only_the_last_word_grows(
        previous.folded_search_text@,
        previous.folded_search_text@,
    );
}

} // verus!
