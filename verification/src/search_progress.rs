//! How far a search has come: what was seen and the best so far.

use crate::arith;
use crate::collect;
use crate::keyset::KeySet;
use crate::ordering;
use crate::ordering::Ranked;
use crate::recents;
use crate::results;
use crate::results::{RankedCandidate, RankedCandidatePayload, SearchResult};
use crate::scan;
use crate::scan::{DirectoryScanContext, PreparedSearchResult, RootScanContext, SearchScope};
use crate::text;
use crate::types::{IndexRoot, LaunchItem, ResultRankingKind};
use vstd::prelude::*;

verus! {

// ---------------------------------------------------------------------------
// Copies of candidates
// ---------------------------------------------------------------------------

/// Two candidates are the same.
pub open spec fn same_candidate(a: RankedCandidate, b: RankedCandidate) -> bool {
    &&& a.ranking_kind == b.ranking_kind
    &&& a.display_score == b.display_score
    &&& a.score == b.score
    &&& match (a.payload, b.payload) {
        (RankedCandidatePayload::Prebuilt(x), RankedCandidatePayload::Prebuilt(y)) =>
            results::same_result(x, y),
        (x, y) => x == y,
    }
}

/// Two lists of candidates are the same.
pub open spec fn same_candidates(a: Seq<RankedCandidate>, b: Seq<RankedCandidate>) -> bool {
    a.len() == b.len() && forall|i: int| 0 <= i < a.len() ==> same_candidate(#[trigger] a[i], b[i])
}

impl RankedCandidate {
    /// A copy of a candidate.
    pub fn copy(&self) -> (r: RankedCandidate)
        ensures
            same_candidate(r, *self),
            r.rank_key() == self.rank_key(),
            results::penalty_is_valid(*self) ==> results::penalty_is_valid(r),
    {
        let payload = match &self.payload {
            RankedCandidatePayload::Heuristic { item, components, from_history } =>
                RankedCandidatePayload::Heuristic {
                item: item.copy(),
                components: *components,
                from_history: *from_history,
            },
            RankedCandidatePayload::Prebuilt(result) => RankedCandidatePayload::Prebuilt(
                result.copy(),
            ),
        };
        RankedCandidate {
            payload,
            ranking_kind: self.ranking_kind,
            display_score: self.display_score,
            score: self.score,
        }
    }
}

/// Every penalty in a list is a penalty.
pub open spec fn penalties_are_valid(list: Seq<RankedCandidate>) -> bool {
    forall|i: int| 0 <= i < list.len() ==> results::penalty_is_valid(#[trigger] list[i])
}

/// A copy of a list of candidates.
pub fn copy_candidates(list: &Vec<RankedCandidate>) -> (r: Vec<RankedCandidate>)
    ensures
        same_candidates(r@, list@),
        penalties_are_valid(list@) ==> penalties_are_valid(r@),
{
    let mut out: Vec<RankedCandidate> = Vec::new();
    let mut i: usize = 0;
    while i < list.len()
        invariant
            i <= list.len(),
            out@.len() == i,
            forall|k: int| 0 <= k < i ==> same_candidate(#[trigger] out@[k], list@[k]),
            penalties_are_valid(list@) ==> penalties_are_valid(out@),
        decreases list.len() - i,
    {
        out.push(list[i].copy());
        i += 1;
    }
    out
}

// ---------------------------------------------------------------------------
// Rows to show
// ---------------------------------------------------------------------------

/// How the path of a candidate was noted in the history.
pub open spec fn noted_as(scope: SearchScope, candidate: RankedCandidate) -> Option<Seq<char>> {
    match candidate.payload {
        RankedCandidatePayload::Heuristic { item, .. } => collect::history_raw(
            scope.history,
            text::fold(item.path@),
        ),
        RankedCandidatePayload::Prebuilt(_) => None,
    }
}

/// The row of a candidate.
pub open spec fn is_row_of(
    row: SearchResult,
    scope: SearchScope,
    candidate: RankedCandidate,
    include_score_detail: bool,
    include_explanation: bool,
) -> bool {
    results::materializes(
        row,
        candidate,
        scope.spec,
        noted_as(scope, candidate),
        scope.scoring,
        include_score_detail,
        include_explanation,
        scope.wording,
    )
}

/// Makes the row of a candidate.
pub fn row_of(
    scope: &SearchScope,
    candidate: &RankedCandidate,
    include_score_detail: bool,
    include_explanation: bool,
) -> (r: SearchResult)
    requires
        results::penalty_is_valid(*candidate),
    ensures
        is_row_of(r, *scope, *candidate, include_score_detail, include_explanation),
{
    let raw_history: Option<String> = match &candidate.payload {
        RankedCandidatePayload::Heuristic { item, .. } => {
            let key = recents::recent_item_key(item.path.as_str());
            let (_, raw): (i32, Option<String>) = scope.history.lookup(key.as_str());
            raw
        },
        RankedCandidatePayload::Prebuilt(_) => None,
    };
    results::materialize_ranked_candidate(
        candidate,
        &scope.spec,
        &raw_history,
        &scope.scoring,
        include_score_detail,
        include_explanation,
        &scope.wording,
    )
}

/// The rows of candidates, in their order.
pub fn materialize_ranked_candidates(
    scope: &SearchScope,
    ranked: &Vec<RankedCandidate>,
    include_score_detail: bool,
    include_explanation: bool,
) -> (r: Vec<SearchResult>)
    requires
        penalties_are_valid(ranked@),
    ensures
        r@.len() == ranked@.len(),
        forall|i: int|
            0 <= i < r@.len() ==> is_row_of(
                #[trigger] r@[i],
                *scope,
                ranked@[i],
                include_score_detail,
                include_explanation,
            ),
{
    let mut out: Vec<SearchResult> = Vec::new();
    let mut i: usize = 0;
    while i < ranked.len()
        invariant
            penalties_are_valid(ranked@),
            i <= ranked.len(),
            out@.len() == i,
            forall|k: int|
                0 <= k < i ==> is_row_of(
                    #[trigger] out@[k],
                    *scope,
                    ranked@[k],
                    include_score_detail,
                    include_explanation,
                ),
        decreases ranked.len() - i,
    {
        out.push(row_of(scope, &ranked[i], include_score_detail, include_explanation));
        i += 1;
    }
    out
}

/// The candidates to show while a search is running: of an unlimited list the first in
/// order, up to a number, else the whole list.
pub fn preview_candidates(best: &Vec<RankedCandidate>, effective_limit: usize, preview: usize) -> (r:
    Vec<RankedCandidate>)
    ensures
        exists|copies: Seq<RankedCandidate>| #[trigger]
            same_candidates(copies, best@) && r@ == (if effective_limit == usize::MAX {
                ordering::first(ordering::ordered(copies), collect::at_least_one(preview))
            } else {
                copies
            }),
        penalties_are_valid(best@) ==> penalties_are_valid(r@),
{
    let copies = copy_candidates(best);
    if effective_limit != usize::MAX {
        return copies;
    }
    let ghost source = copies@;
    let mut list = ordering::sort_in_order(copies);
    proof {
        ordering::lemma_ordered_same_items(source);
        assert forall|i: int| penalties_are_valid(source) && 0 <= i < list@.len() implies
            results::penalty_is_valid(#[trigger] list@[i]) by {
            assert(list@.to_multiset().count(list@[i]) > 0) by {
                vstd::seq_lib::to_multiset_contains(list@, list@[i]);
            }
            vstd::seq_lib::to_multiset_contains(source, list@[i]);
            assert(source.contains(list@[i]));
        }
    }
    let count: usize = if preview == 0 {
        1
    } else {
        preview
    };
    if count < list.len() {
        list.truncate(count);
    }
    proof {
        assert(same_candidates(source, best@));
    }
    list
}

// ---------------------------------------------------------------------------
// The best so far
// ---------------------------------------------------------------------------

/// A list that is in order and no longer than its limit.
pub open spec fn keeps_limit(best: Seq<RankedCandidate>, limit: usize) -> bool {
    limit != usize::MAX ==> ordering::in_order(best) && (best.len() <= limit || best.len() <= 1)
}

/// Something that cannot enter a list leaves it as it is.
pub proof fn lemma_unentered_stays(best: Seq<RankedCandidate>, item: RankedCandidate, limit: usize)
    requires
        keeps_limit(best, limit),
        !ordering::enters(best, item, limit),
    ensures
        ordering::offered(best, item, limit) == best,
{
    assert(ordering::place_of(best, item.rank_key()) == best.len());
    assert(ordering::put(best, item).take(best.len() as int) =~= best);
}

/// A candidate of a search through folders: scored, or pinned by a launch rule.
pub open spec fn is_of_folders(candidate: RankedCandidate) -> bool {
    candidate.ranking_kind == ResultRankingKind::Heuristic || candidate.ranking_kind
        == ResultRankingKind::QueryLaunchRule
}

/// In a search through folders the threshold never sinks as more is offered.
pub proof fn lemma_threshold_grows(best: Seq<RankedCandidate>, item: RankedCandidate, limit: usize)
    requires
        keeps_limit(best, limit),
        is_of_folders(item),
        forall|i: int| 0 <= i < best.len() ==> is_of_folders(#[trigger] best[i]),
    ensures
        results::threshold_of(best, limit) <= results::threshold_of(
            ordering::offered(best, item, limit),
            limit,
        ),
        keeps_limit(ordering::offered(best, item, limit), limit),
{
    if limit != usize::MAX {
        let all = ordering::put(best, item);
        let after = ordering::offered(best, item, limit);
        ordering::lemma_put_in_order(best, item);
        ordering::lemma_place(best, item.rank_key());
        assert(ordering::in_order(after));
        if results::is_full(best.len(), limit) {
            let n = best.len() as int;
            assert(after =~= all.take(n));
            assert(after.last() == all[n - 1]);
            let p = ordering::place_of(best, item.rank_key());
            assert(all[n - 1] == (if p == n - 1 {
                item
            } else if p == n {
                best[n - 1]
            } else {
                best[n - 2]
            }));
            ordering::lemma_key_total(item.rank_key(), best[n - 1].rank_key());
            assert(n >= 2 ==> is_of_folders(best[n - 2]));
            assert(is_of_folders(best[n - 1]));
            assert(!ordering::key_before(best[n - 1].rank_key(), after.last().rank_key()));
        }
    }
}

/// How far a search has come.
#[derive(Debug, PartialEq, Eq)]
pub struct SearchProgress {
    pub seen: KeySet,
    pub best: Vec<RankedCandidate>,
    pub scanned_total: usize,
}

/// The outcome of looking at an item that fits and was not seen before.
pub open spec fn takes_up(
    before: Seq<RankedCandidate>,
    after: Seq<RankedCandidate>,
    stored: Option<RankedCandidate>,
    candidate: RankedCandidate,
    hopeless: bool,
    limit: usize,
    storing: bool,
) -> bool {
    if storing {
        &&& after == ordering::offered(before, candidate, limit)
        &&& stored matches Some(copy) && same_candidate(copy, candidate)
    } else {
        &&& stored is None
        &&& after == (if hopeless {
            before
        } else {
            ordering::offered(before, candidate, limit)
        })
    }
}

/// What comes of looking at a path.
pub open spec fn looked<F: FnOnce() -> Option<i64>>(
    before: SearchProgress,
    after: SearchProgress,
    stored: Option<RankedCandidate>,
    scope: SearchScope,
    path: Seq<char>,
    file_name: Option<Seq<char>>,
    is_dir: bool,
    root: IndexRoot,
    directory: DirectoryScanContext,
    limit: usize,
    storing: bool,
    load: F,
) -> bool {
    match scan::path_fit(scope, path, file_name, is_dir, directory) {
        None => stored is None && after.seen@ == before.seen@ && after.best@ == before.best@,
        Some(text_score) => {
            &&& after.seen@ == before.seen@.insert(text::fold(path))
            &&& if before.seen@.contains(text::fold(path)) {
                stored is None && after.best@ == before.best@
            } else {
                exists|item: LaunchItem, modified_at: Option<i64>|
                    #![trigger scan::is_item_at(item, path, file_name, is_dir, root, directory, modified_at)]
                    scan::is_item_at(item, path, file_name, is_dir, root, directory, modified_at)
                        && scan::can_load(scope, load, modified_at) && takes_up(
                        before.best@,
                        after.best@,
                        stored,
                        scope.candidate_of(item, text_score),
                        results::is_hopeless(
                            scope.bound_of(item, text_score),
                            results::threshold_of(before.best@, limit),
                        ),
                        limit,
                        storing,
                    ) && (scope.keeps_ceiling() ==> after.best@ == ordering::offered(
                        before.best@,
                        scope.candidate_of(item, text_score),
                        limit,
                    ))
            }
        },
    }
}

impl SearchProgress {
    /// The list keeps its limit, and the set is sound.
    pub open spec fn well_formed(&self, limit: usize) -> bool {
        &&& self.seen.well_formed()
        &&& keeps_limit(self.best@, limit)
        &&& penalties_are_valid(self.best@)
    }

    /// A search that has not begun.
    pub fn new() -> (r: SearchProgress)
        ensures
            forall|limit: usize| #[trigger] r.well_formed(limit),
            r.seen@ == Set::<Seq<char>>::empty(),
            r.best@.len() == 0,
            r.scanned_total == 0,
    {
        SearchProgress { seen: KeySet::new(), best: Vec::new(), scanned_total: 0 }
    }

    /// Takes up a row that is known from the start. Gives a copy to store where results
    /// are stored.
    pub fn start_with(&mut self, result: SearchResult, limit: usize, storing: bool) -> (r: Option<
        RankedCandidate,
    >)
        requires
            old(self).well_formed(limit),
        ensures
            final(self).well_formed(limit),
            final(self).scanned_total == old(self).scanned_total,
            final(self).seen@ == (match results::target_path(result) {
                Some(path) => old(self).seen@.insert(text::fold(path)),
                None => old(self).seen@,
            }),
            exists|candidate: RankedCandidate|
                candidate.payload == RankedCandidatePayload::Prebuilt(result)
                    && candidate.ranking_kind == result.ranking_kind && candidate.display_score
                    == result.display_score && candidate.score == result.score && #[trigger]
                takes_up(old(self).best@, final(self).best@, r, candidate, false, limit, storing),
    {
        if let Some(path) = results::result_target_path(&result) {
            let key = recents::recent_item_key(path.as_str());
            let _ = self.seen.insert(key.as_str());
        }
        let ranked = results::ranked_candidate_from_prebuilt(result);
        let ghost candidate = ranked;
        let stored: Option<RankedCandidate> = if storing {
            Some(ranked.copy())
        } else {
            None
        };
        self.add_to_best(ranked, limit);
        proof {
            assert(takes_up(
                old(self).best@,
                self.best@,
                stored,
                candidate,
                false,
                limit,
                storing,
            ));
        }
        stored
    }

    /// Offers a candidate to the best.
    pub(crate) fn add_to_best(&mut self, candidate: RankedCandidate, limit: usize) -> (r: bool)
        requires
            old(self).well_formed(limit),
            results::penalty_is_valid(candidate),
        ensures
            final(self).well_formed(limit),
            final(self).seen == old(self).seen,
            final(self).scanned_total == old(self).scanned_total,
            final(self).best@ == ordering::offered(old(self).best@, candidate, limit),
            r == ordering::enters(old(self).best@, candidate, limit),
    {
        let r = results::insert_bounded_ranked_candidate(&mut self.best, candidate, limit);
        proof {
            let before = old(self).best@;
            let after = self.best@;
            if limit != usize::MAX {
                ordering::lemma_place(before, candidate.rank_key());
            }
            assert forall|i: int| 0 <= i < after.len() implies results::penalty_is_valid(
                #[trigger] after[i],
            ) by {
                let p = ordering::place_of(before, candidate.rank_key());
                if limit == usize::MAX {
                    assert(i < before.len() ==> after[i] == before[i]);
                } else if i < p {
                    assert(after[i] == before[i]);
                } else if i > p {
                    assert(after[i] == before[i - 1]);
                }
            }
        }
        r
    }

    /// Looks at a path and takes it up where it fits the query, was not seen before and
    /// can still enter the best. Gives a copy to store where results are stored; then
    /// nothing is left out. Leaving out what can no longer reach the threshold changes
    /// nothing of the best, as long as no history score is above its ceiling.
    pub fn look_at<F: FnOnce() -> Option<i64>>(
        &mut self,
        scope: &SearchScope,
        path: &str,
        file_name: &Option<String>,
        is_dir: bool,
        root: &RootScanContext,
        directory: &DirectoryScanContext,
        limit: usize,
        storing: bool,
        load: F,
    ) -> (r: Option<RankedCandidate>)
        requires
            scope.well_formed(),
            old(self).well_formed(limit),
            scope.scoring.recency_date_enabled ==> call_requires(load, ()),
        ensures
            final(self).well_formed(limit),
            final(self).scanned_total == arith::min_int(
                old(self).scanned_total + 1,
                usize::MAX as int,
            ),
            looked(
                *old(self),
                *final(self),
                r,
                *scope,
                path@,
                text::optional(*file_name),
                is_dir,
                root.root,
                *directory,
                limit,
                storing,
                load,
            ),
    {
        let threshold: u64 = if storing {
            0
        } else {
            results::bounded_ranked_threshold(&self.best, limit)
        };
        let found = scan::consider_prepared_search_path(
            scope,
            path,
            file_name,
            is_dir,
            root,
            directory,
            &mut self.seen,
            &mut self.scanned_total,
            threshold,
            load,
        );
        let ghost name = text::optional(*file_name);
        let ghost fit = scan::path_fit(*scope, path@, name, is_dir, *directory);
        let ghost fresh = fit is Some && !old(self).seen@.contains(text::fold(path@));
        let ghost mut the_item: LaunchItem = arbitrary();
        let ghost mut the_time: Option<i64> = None;
        proof {
            if fresh {
                let (item, modified_at) = choose|item: LaunchItem, modified_at: Option<i64>|
                    #![trigger scan::is_item_at(item, path@, name, is_dir, root.root, *directory, modified_at)]
                    scan::is_item_at(item, path@, name, is_dir, root.root, *directory, modified_at)
                        && scan::can_load(*scope, load, modified_at) && scan::becomes(found, *scope, item, fit->0, threshold as int);
                the_item = item;
                the_time = modified_at;
                let candidate = scope.candidate_of(item, fit->0);
                if scope.keeps_ceiling() && results::is_hopeless(
                    scope.bound_of(item, fit->0),
                    threshold as int,
                ) {
                    results::lemma_pruning_is_safe(
                        self.best@,
                        item,
                        scope.prepared.folded_search_text@,
                        scope.spec.scoring_time_unix_seconds,
                        fit->0,
                        scope.prepared,
                        collect::history_score(scope.history, text::fold(item.path@)),
                        false,
                        scope.scoring,
                        limit,
                    );
                    lemma_unentered_stays(self.best@, candidate, limit);
                }
            }
        }
        match found {
            None => None,
            Some(prepared) => {
                let stored: Option<RankedCandidate> = if storing {
                    Some(prepared.candidate.copy())
                } else {
                    None
                };
                let _ = self.add_to_best(prepared.candidate, limit);
                proof {
                    assert(fresh);
                    assert(scan::is_item_at(
                        the_item,
                        path@,
                        name,
                        is_dir,
                        root.root,
                        *directory,
                        the_time,
                    ));
                }
                stored
            },
        }
    }
}


// ---------------------------------------------------------------------------
// Paths for rows
// ---------------------------------------------------------------------------

/// Looks at a path by itself, for the row that it makes. Nothing is left out for its
/// score.
pub fn consider_search_path_with_type<F: FnOnce() -> Option<i64>>(
    scope: &SearchScope,
    path: &str,
    is_dir: bool,
    root: &RootScanContext,
    working_directory: &str,
    seen: &mut KeySet,
    scanned_total: &mut usize,
    include_score_detail: bool,
    include_explanation: bool,
    load: F,
) -> (r: Option<SearchResult>)
    requires
        scope.well_formed(),
        old(seen).well_formed(),
        root.root_name@ == scan::folder_name(root.root),
        scope.scoring.recency_date_enabled ==> call_requires(load, ()),
    ensures
        final(seen).well_formed(),
        *final(scanned_total) == arith::min_int(*old(scanned_total) + 1, usize::MAX as int),
        exists|found: Option<PreparedSearchResult>|
            #![trigger scan::considers_alone(found, *scope, path@, is_dir, *root, working_directory@, old(seen)@, final(seen)@, 0, load)]
            scan::considers_alone(
                found,
                *scope,
                path@,
                is_dir,
                *root,
                working_directory@,
                old(seen)@,
                final(seen)@,
                0,
                load,
            ) && match (found, r) {
                (Some(prepared), Some(row)) => is_row_of(
                    row,
                    *scope,
                    prepared.candidate,
                    include_score_detail,
                    include_explanation,
                ),
                (None, None) => true,
                _ => false,
            },
{
    match scan::consider_ranked_search_path_with_type(
        scope,
        path,
        is_dir,
        root,
        working_directory,
        seen,
        scanned_total,
        0,
        load,
    ) {
        Some(candidate) => Some(
            row_of(scope, &candidate, include_score_detail, include_explanation),
        ),
        None => None,
    }
}

// ---------------------------------------------------------------------------
// Several at work
// ---------------------------------------------------------------------------

/// What came of offering a candidate to the progress that several workers share.
#[derive(Debug, PartialEq, Eq)]
pub struct ParallelOffer {
    /// The threshold to go by from now on, where it has changed.
    pub threshold: Option<u64>,
    /// A copy to store, where results are stored.
    pub stored: Option<RankedCandidate>,
}

/// A candidate is turned away at sight: nothing is stored, and its rank is below the
/// threshold that a worker knows of.
pub open spec fn turned_away(candidate: RankedCandidate, known_threshold: u64, storing: bool) -> bool {
    !storing && known_threshold != 0 && results::primary_rank(
        candidate.ranking_kind == ResultRankingKind::QueryLaunchRule,
        candidate.score,
    ) < known_threshold
}

impl SearchProgress {
    /// Offers a candidate that a worker found to the progress that all share. Turning
    /// it away by a threshold that the list had, now or earlier, changes nothing of the
    /// best.
    pub fn offer_parallel_search_result(
        &mut self,
        found: PreparedSearchResult,
        known_threshold: u64,
        limit: usize,
        storing: bool,
    ) -> (r: ParallelOffer)
        requires
            old(self).well_formed(limit),
            results::penalty_is_valid(found.candidate),
        ensures
            final(self).well_formed(limit),
            final(self).scanned_total == old(self).scanned_total,
            ({
                let away = turned_away(found.candidate, known_threshold, storing);
                let known = old(self).seen@.contains(found.path_key@);
                let enters = ordering::enters(old(self).best@, found.candidate, limit);
                &&& final(self).seen@ == (if away {
                    old(self).seen@
                } else {
                    old(self).seen@.insert(found.path_key@)
                })
                &&& final(self).best@ == (if away || known {
                    old(self).best@
                } else {
                    ordering::offered(old(self).best@, found.candidate, limit)
                })
                &&& match r.stored {
                    Some(copy) => storing && !known && same_candidate(copy, found.candidate),
                    None => !storing || known,
                }
                &&& match r.threshold {
                    Some(threshold) => !away && !known && enters && threshold
                        == results::threshold_of(final(self).best@, limit),
                    None => away || known || !enters,
                }
            }),
            found.candidate.ranking_kind == ResultRankingKind::Heuristic && known_threshold
                <= results::threshold_of(old(self).best@, limit) && !old(self).seen@.contains(
                found.path_key@,
            ) ==> final(self).best@ == ordering::offered(old(self).best@, found.candidate, limit),
    {
        proof {
            if turned_away(found.candidate, known_threshold, storing)
                && found.candidate.ranking_kind == ResultRankingKind::Heuristic && known_threshold
                <= results::threshold_of(self.best@, limit) {
                results::lemma_pruned_never_enters(
                    self.best@,
                    found.candidate,
                    found.candidate.score,
                    limit,
                );
                lemma_unentered_stays(self.best@, found.candidate, limit);
            }
        }
        if !storing && known_threshold != 0 {
            let rank: u64 = results::primary_ranked_candidate_rank(&found.candidate);
            if rank < known_threshold {
                return ParallelOffer { threshold: None, stored: None };
            }
        }
        if !self.seen.insert(found.path_key.as_str()) {
            return ParallelOffer { threshold: None, stored: None };
        }
        let stored: Option<RankedCandidate> = if storing {
            Some(found.candidate.copy())
        } else {
            None
        };
        if self.add_to_best(found.candidate, limit) {
            let threshold: u64 = results::bounded_ranked_threshold(&self.best, limit);
            ParallelOffer { threshold: Some(threshold), stored }
        } else {
            ParallelOffer { threshold: None, stored }
        }
    }

    /// Counts what a worker has looked at. Tells whether the progress is to be shown
    /// now.
    pub fn count_scanned(
        &mut self,
        scanned: usize,
        showing: bool,
        step: usize,
        interval_passed: bool,
        is_active: bool,
    ) -> (r: bool)
        ensures
            final(self).seen == old(self).seen,
            final(self).best == old(self).best,
            final(self).scanned_total == arith::min_int(
                old(self).scanned_total + scanned,
                usize::MAX as int,
            ),
            r == (showing && scanned > 0 && (is_multiple(final(self).scanned_total, step)
                || interval_passed) && is_active),
    {
        if scanned == 0 {
            return false;
        }
        self.scanned_total = self.scanned_total.saturating_add(scanned);
        showing && (is_multiple_of(self.scanned_total, step) || interval_passed) && is_active
    }

    /// Whether progress is to be shown after something was looked at.
    pub fn is_publish_due(&self, step: usize, interval_passed: bool, is_active: bool) -> (r: bool)
        ensures
            r == (self.scanned_total > 0 && (is_multiple(self.scanned_total, step)
                || interval_passed) && is_active),
    {
        self.scanned_total > 0 && (is_multiple_of(self.scanned_total, step) || interval_passed)
            && is_active
    }
}

/// A number is a multiple of another; of zero only zero is.
pub open spec fn is_multiple(n: usize, step: usize) -> bool {
    if step == 0 {
        n == 0
    } else {
        n % step == 0
    }
}

/// Whether a number is a multiple of another.
pub fn is_multiple_of(n: usize, step: usize) -> (r: bool)
    ensures
        r == is_multiple(n, step),
{
    if step == 0 {
        n == 0
    } else {
        n % step == 0
    }
}


// ---------------------------------------------------------------------------
// The rows to begin with
// ---------------------------------------------------------------------------

/// A row as a candidate.
pub open spec fn row_candidate(row: SearchResult) -> RankedCandidate {
    RankedCandidate {
        payload: RankedCandidatePayload::Prebuilt(row),
        ranking_kind: row.ranking_kind,
        display_score: row.display_score,
        score: row.score,
    }
}

/// Rows as candidates.
pub open spec fn row_candidates(rows: Seq<SearchResult>) -> Seq<RankedCandidate> {
    Seq::new(rows.len(), |i: int| row_candidate(rows[i]))
}

/// The keys of the paths that the first `n` rows lead to.
pub open spec fn row_keys(rows: Seq<SearchResult>, n: int) -> Set<Seq<char>>
    decreases n,
{
    if n <= 0 {
        Set::empty()
    } else {
        match results::target_path(rows[n - 1]) {
            Some(path) => row_keys(rows, n - 1).insert(text::fold(path)),
            None => row_keys(rows, n - 1),
        }
    }
}

/// Copies of rows to store: of all where results are stored, else of none.
pub open spec fn copies_of_rows(stored: Seq<RankedCandidate>, rows: Seq<SearchResult>, storing: bool) -> bool {
    if storing {
        same_candidates(stored, row_candidates(rows))
    } else {
        stored.len() == 0
    }
}

impl SearchProgress {
    /// Offers the rows that a search begins with. Gives copies to store where results are
    /// stored.
    pub fn begin(rows: Vec<SearchResult>, limit: usize, storing: bool) -> (r: (
        SearchProgress,
        Vec<RankedCandidate>,
    ))
        ensures
            r.0.well_formed(limit),
            r.0.best@ == ordering::offered_all(row_candidates(rows@), limit),
            r.0.seen@ == row_keys(rows@, rows@.len() as int),
            r.0.scanned_total == 0,
            copies_of_rows(r.1@, rows@, storing),
    {
        let ghost all = rows@;
        let mut progress = SearchProgress::new();
        let mut copies: Vec<RankedCandidate> = Vec::new();
        let mut source = rows;
        let ghost mut done: int = 0;
        proof {
            assert(progress.well_formed(limit));
            assert(all.skip(0) =~= all);
            assert(row_candidates(all).take(0) =~= Seq::<RankedCandidate>::empty());
            assert(progress.best@ =~= ordering::offered_all(row_candidates(all).take(0), limit));
        }
        while source.len() > 0
            invariant
                0 <= done <= all.len(),
                source@ == all.skip(done),
                progress.well_formed(limit),
                progress.best@ == ordering::offered_all(row_candidates(all).take(done), limit),
                progress.seen@ == row_keys(all, done),
                progress.scanned_total == 0,
                copies@.len() == (if storing {
                    done
                } else {
                    0
                }),
                forall|i: int|
                    0 <= i < copies@.len() ==> same_candidate(
                        #[trigger] copies@[i],
                        row_candidate(all[i]),
                    ),
            decreases source@.len(),
        {
            let row = source.remove(0);
            proof {
                assert(row == all[done]);
                assert(source@ =~= all.skip(done + 1));
                assert(row_candidates(all).take(done + 1).drop_last() =~= row_candidates(all).take(
                    done,
                ));
                assert(row_candidates(all).take(done + 1).last() == row_candidate(row));
            }
            let ghost before = progress.best@;
            let stored = progress.start_with(row, limit, storing);
            proof {
                let candidate = choose|candidate: RankedCandidate|
                    candidate.payload == RankedCandidatePayload::Prebuilt(row)
                        && candidate.ranking_kind == row.ranking_kind && candidate.display_score
                        == row.display_score && candidate.score == row.score && #[trigger]
                    takes_up(before, progress.best@, stored, candidate, false, limit, storing);
                assert(candidate == row_candidate(row));
                done = done + 1;
            }
            if let Some(copy) = stored {
                copies.push(copy);
            }
        }
        proof {
            assert(row_candidates(all).take(done) =~= row_candidates(all));
        }
        (progress, copies)
    }
}

// ---------------------------------------------------------------------------
// One of several at work
// ---------------------------------------------------------------------------

/// What one of several workers keeps to itself until it tells the others: the keys that
/// it met, how much it looked at, and the number at which it tells.
#[derive(Debug, PartialEq, Eq)]
pub struct LocalSearchProgress {
    pub seen: KeySet,
    pub scanned_total: usize,
    pub next_flush: usize,
}

impl LocalSearchProgress {
    /// Nothing looked at.
    pub fn new(step: usize) -> (r: LocalSearchProgress)
        ensures
            r.seen.well_formed(),
            r.seen@ == Set::<Seq<char>>::empty(),
            r.scanned_total == 0,
            r.next_flush == step,
    {
        LocalSearchProgress { seen: KeySet::new(), scanned_total: 0, next_flush: step }
    }

    /// Looks at a path, by the threshold that the workers share. Where results are
    /// stored, nothing is passed over for its score.
    pub fn look_at<F: FnOnce() -> Option<i64>>(
        &mut self,
        scope: &SearchScope,
        path: &str,
        file_name: &Option<String>,
        is_dir: bool,
        root: &RootScanContext,
        directory: &DirectoryScanContext,
        shared_threshold: u64,
        storing: bool,
        load: F,
    ) -> (r: Option<PreparedSearchResult>)
        requires
            scope.well_formed(),
            old(self).seen.well_formed(),
            scope.scoring.recency_date_enabled ==> call_requires(load, ()),
        ensures
            final(self).seen.well_formed(),
            final(self).next_flush == old(self).next_flush,
            final(self).scanned_total == arith::min_int(
                old(self).scanned_total + 1,
                usize::MAX as int,
            ),
            scan::considers(
                r,
                *scope,
                path@,
                text::optional(*file_name),
                is_dir,
                root.root,
                *directory,
                old(self).seen@,
                final(self).seen@,
                if storing {
                    0
                } else {
                    shared_threshold as int
                },
                load,
            ),
            r matches Some(found) ==> results::penalty_is_valid(found.candidate),
    {
        let threshold: u64 = if storing {
            0
        } else {
            shared_threshold
        };
        scan::consider_prepared_search_path(
            scope,
            path,
            file_name,
            is_dir,
            root,
            directory,
            &mut self.seen,
            &mut self.scanned_total,
            threshold,
            load,
        )
    }

    /// Whether the worker tells the others now.
    pub fn is_flush_due(&self, interval_passed: bool) -> (r: bool)
        ensures
            r == (self.scanned_total >= self.next_flush || interval_passed),
    {
        self.scanned_total >= self.next_flush || interval_passed
    }

    /// Tells the progress that all share how much was looked at, and begins again. The
    /// answer is whether that progress is to be shown now.
    pub fn flush(
        &mut self,
        shared: &mut SearchProgress,
        showing: bool,
        step: usize,
        interval_passed: bool,
        is_active: bool,
    ) -> (r: bool)
        requires
            old(self).seen.well_formed(),
        ensures
            final(self).seen.well_formed(),
            final(self).scanned_total == 0,
            final(self).next_flush == step,
            old(self).scanned_total > 0 ==> final(self).seen@ == Set::<Seq<char>>::empty(),
            old(self).scanned_total == 0 ==> final(self).seen@ == old(self).seen@,
            final(shared).seen == old(shared).seen,
            final(shared).best == old(shared).best,
            final(shared).scanned_total == arith::min_int(
                old(shared).scanned_total + old(self).scanned_total,
                usize::MAX as int,
            ),
            r == (showing && old(self).scanned_total > 0 && (is_multiple(
                final(shared).scanned_total,
                step,
            ) || interval_passed) && is_active),
    {
        let due = shared.count_scanned(
            self.scanned_total,
            showing,
            step,
            interval_passed,
            is_active,
        );
        if self.scanned_total > 0 {
            self.seen = KeySet::new();
            self.scanned_total = 0;
        }
        self.next_flush = step;
        due
    }
}

/// What is known of rows is the paths that they launch, folded.
pub proof fn lemma_keys_of_rows(rows: Seq<SearchResult>, n: int, key: Seq<char>)
    requires
        0 <= n <= rows.len(),
    ensures
        row_keys(rows, n).contains(key) <==> exists|i: int|
            0 <= i < n && (match (#[trigger] rows[i]).target {
                results::LaunchTarget::Path(path) => text::fold(path@) == key,
                results::LaunchTarget::Plugin(_) => false,
            }),
    decreases n,
{
    if n > 0 {
        lemma_keys_of_rows(rows, n - 1, key);
        if row_keys(rows, n).contains(key) && !row_keys(rows, n - 1).contains(key) {
            assert(results::target_path(rows[n - 1]) is Some);
            assert(match rows[n - 1].target {
                results::LaunchTarget::Path(path) => text::fold(path@) == key,
                results::LaunchTarget::Plugin(_) => false,
            });
        }
    }
}

/// Batches are due at every multiple of a step.
pub proof fn lemma_multiples(n: nat, step: usize)
    requires
        step > 0,
        n * step <= usize::MAX,
    ensures
        is_multiple((n * step) as usize, step),
        is_multiple(0, step),
        forall|k: usize| 0 < k < step ==> !#[trigger] is_multiple(k, step),
        is_multiple(0, 0) && !is_multiple(1, 0),
{
    vstd::arithmetic::div_mod::lemma_mod_multiples_basic(n as int, step as int);
    assert forall|k: usize| 0 < k < step implies !#[trigger] is_multiple(k, step) by {
        vstd::arithmetic::div_mod::lemma_small_mod(k as nat, step as nat);
    }
    vstd::arithmetic::div_mod::lemma_small_mod(0, step as nat);
}

/// A candidate is offered to the best unless it is hopeless, and a copy is stored wherever
/// results are: then it is offered in any case.
pub proof fn lemma_what_is_taken_up(
    before: Seq<RankedCandidate>,
    after: Seq<RankedCandidate>,
    stored: Option<RankedCandidate>,
    candidate: RankedCandidate,
    hopeless: bool,
    limit: usize,
    storing: bool,
)
    requires
        takes_up(before, after, stored, candidate, hopeless, limit, storing),
    ensures
        stored is Some <==> storing,
        stored matches Some(copy) ==> copy.score == candidate.score && copy.ranking_kind
            == candidate.ranking_kind,
        storing || !hopeless ==> after == ordering::offered(before, candidate, limit),
        !storing && hopeless ==> after == before,
{
}

} // verus!
