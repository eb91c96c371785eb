//! A search from its beginning to its end.

use crate::aliases::Environment;
use crate::arith;
use crate::collect;
use crate::collect::HistoryTable;
use crate::keyset::KeySet;
use crate::ordering;
use crate::places;
use crate::query;
use crate::results;
use crate::results::{RankedCandidate, RankedCandidatePayload, SearchResult};
use crate::root_ownership;
use crate::scan;
use crate::scan::{DirectoryScanContext, PreparedSearchResult, RootScanContext, SearchScope};
use crate::scan_tasks::ScanFolder;
use crate::search_progress;
use crate::search_progress::SearchProgress;
use crate::search_worker::{ResultStoreCompletion, SearchBatch, SearchLimits, SearchStage};
use crate::text;
use crate::types::{
    DirectoryBrowseSpec, IndexRoot, LaunchItem, ScoringConfig, SearchQueryMode, SearchQuerySpec,
};
use crate::wording::Wording;
use vstd::prelude::*;

verus! {

// ---------------------------------------------------------------------------
// The way of a search
// ---------------------------------------------------------------------------

/// How a query is answered.
#[derive(Clone, Copy, Debug, PartialEq, Eq, Structural)]
pub enum SearchWay {
    /// With the paths launched last.
    RecentOrder,
    /// With what is in a directory.
    Directory,
    /// With nothing, as the directory is not known.
    NoDirectory,
    /// With what is in the search folders.
    Folders,
}

/// How a query is answered.
pub open spec fn way_of(spec: SearchQuerySpec) -> SearchWay {
    match spec.mode {
        SearchQueryMode::BlankHistory => SearchWay::RecentOrder,
        SearchQueryMode::DirectoryBrowse => if spec.directory is Some {
            SearchWay::Directory
        } else {
            SearchWay::NoDirectory
        },
        SearchQueryMode::NormalSearch => SearchWay::Folders,
    }
}

/// How a query is answered.
pub fn search_way(spec: &SearchQuerySpec) -> (r: SearchWay)
    ensures
        r == way_of(*spec),
{
    match spec.mode {
        SearchQueryMode::BlankHistory => SearchWay::RecentOrder,
        SearchQueryMode::DirectoryBrowse => match &spec.directory {
            Some(_) => SearchWay::Directory,
            None => SearchWay::NoDirectory,
        },
        SearchQueryMode::NormalSearch => SearchWay::Folders,
    }
}

/// Whether a search is still wanted.
pub fn is_active_search_generation(generation: u64, active_generation: u64) -> (r: bool)
    ensures
        r == (generation == active_generation),
{
    generation == active_generation
}

/// The last batch of a search, with rows and what came of storing all.
pub fn last_batch(
    generation: u64,
    results: Vec<SearchResult>,
    scanned_total: usize,
    effective_limit: usize,
    result_store: Option<ResultStoreCompletion>,
) -> (r: SearchBatch)
    ensures
        r == (SearchBatch {
            generation,
            results,
            scanned_total,
            stage: SearchStage::Done,
            done: true,
            effective_limit,
            result_store,
        }),
{
    SearchBatch {
        generation,
        results,
        scanned_total,
        stage: SearchStage::Done,
        done: true,
        effective_limit,
        result_store,
    }
}

// ---------------------------------------------------------------------------
// Through search folders
// ---------------------------------------------------------------------------

/// An entry of a directory.
#[derive(Debug, PartialEq, Eq)]
pub struct FoundEntry {
    pub path: String,
    pub file_name: String,
    pub is_dir: bool,
    pub is_reparse_point: bool,
    pub modified_at: Option<i64>,
}

/// A search through search folders.
#[derive(Debug, PartialEq, Eq)]
pub struct SearchRun {
    pub generation: u64,
    pub limits: SearchLimits,
    pub scope: SearchScope,
    pub include_score_detail: bool,
    pub include_explanation: bool,
    pub progress: SearchProgress,
}

/// An entry is passed over.
pub open spec fn passed_over(entry: FoundEntry, folder: ScanFolder, working_directory: Seq<char>) -> bool {
    entry.is_dir && (entry.is_reparse_point || root_ownership::within_any(
        root_ownership::path_key(entry.path@, working_directory),
        text::texts(folder.exclusions@),
    ))
}

/// The text score of an entry; none where it is passed over or does not fit.
pub open spec fn entry_fit(
    scope: SearchScope,
    entry: FoundEntry,
    folder: ScanFolder,
    directory: DirectoryScanContext,
    working_directory: Seq<char>,
) -> Option<i32> {
    if passed_over(entry, folder, working_directory) {
        None
    } else {
        scan::path_fit(scope, entry.path@, Some(entry.file_name@), entry.is_dir, directory)
    }
}

/// What has been seen after the first `n` entries.
pub open spec fn seen_after(
    scope: SearchScope,
    seen: Set<Seq<char>>,
    entries: Seq<FoundEntry>,
    folder: ScanFolder,
    directory: DirectoryScanContext,
    working_directory: Seq<char>,
    n: int,
) -> Set<Seq<char>>
    decreases n,
{
    if n <= 0 {
        seen
    } else {
        let before = seen_after(
            scope,
            seen,
            entries,
            folder,
            directory,
            working_directory,
            n - 1,
        );
        match entry_fit(scope, entries[n - 1], folder, directory, working_directory) {
            Some(_) => before.insert(text::fold(entries[n - 1].path@)),
            None => before,
        }
    }
}

/// How many of the first `n` entries are looked at.
pub open spec fn looked_at(
    entries: Seq<FoundEntry>,
    folder: ScanFolder,
    working_directory: Seq<char>,
    n: int,
) -> int
    decreases n,
{
    if n <= 0 {
        0
    } else {
        looked_at(entries, folder, working_directory, n - 1) + (if passed_over(
            entries[n - 1],
            folder,
            working_directory,
        ) {
            0int
        } else {
            1
        })
    }
}

/// The directories among the first `n` entries that are looked through as well.
pub open spec fn children(
    entries: Seq<FoundEntry>,
    folder: ScanFolder,
    directory: DirectoryScanContext,
    working_directory: Seq<char>,
    n: int,
) -> Seq<Seq<char>>
    decreases n,
{
    if n <= 0 {
        Seq::empty()
    } else {
        let before = children(entries, folder, directory, working_directory, n - 1);
        let entry = entries[n - 1];
        if entry.is_dir && !passed_over(entry, folder, working_directory) && scan::goes_deeper(
            folder.context.root,
            directory.depth,
        ) {
            before.push(entry.path@)
        } else {
            before
        }
    }
}

/// The time of last change of an entry, where the date counts.
pub open spec fn known_time(scope: SearchScope, entry: FoundEntry) -> Option<i64> {
    if scope.scoring.recency_date_enabled {
        entry.modified_at
    } else {
        None
    }
}

/// The candidate of an entry that is new and fits.
pub open spec fn is_candidate_of(
    candidate: RankedCandidate,
    scope: SearchScope,
    entry: FoundEntry,
    folder: ScanFolder,
    directory: DirectoryScanContext,
    text_score: i32,
) -> bool {
    exists|item: LaunchItem| #[trigger]
        scan::is_item_at(
            item,
            entry.path@,
            Some(entry.file_name@),
            entry.is_dir,
            folder.context.root,
            directory,
            known_time(scope, entry),
        ) && candidate == scope.candidate_of(item, text_score)
}

/// What comes of an entry: a candidate where it fits and was not seen before.
pub open spec fn is_taken(
    taken: Option<RankedCandidate>,
    scope: SearchScope,
    entry: FoundEntry,
    folder: ScanFolder,
    directory: DirectoryScanContext,
    working_directory: Seq<char>,
    seen: Set<Seq<char>>,
) -> bool {
    match entry_fit(scope, entry, folder, directory, working_directory) {
        None => taken is None,
        Some(text_score) => if seen.contains(text::fold(entry.path@)) {
            taken is None
        } else {
            taken matches Some(candidate) && is_candidate_of(
                candidate,
                scope,
                entry,
                folder,
                directory,
                text_score,
            )
        },
    }
}

/// A list after what came of the first `n` entries was offered to it.
pub open spec fn offered_some(
    best: Seq<RankedCandidate>,
    taken: Seq<Option<RankedCandidate>>,
    limit: usize,
    n: int,
) -> Seq<RankedCandidate>
    decreases n,
{
    if n <= 0 {
        best
    } else {
        let before = offered_some(best, taken, limit, n - 1);
        match taken[n - 1] {
            Some(candidate) => ordering::offered(before, candidate, limit),
            None => before,
        }
    }
}

/// The most that a candidate can score.
pub open spec fn candidate_bound(scope: SearchScope, candidate: RankedCandidate) -> i32 {
    match candidate.payload {
        RankedCandidatePayload::Heuristic { item, components, .. } => scope.bound_of(
            item,
            components.text_score,
        ),
        RankedCandidatePayload::Prebuilt(_) => i32::MAX,
    }
}

/// A list after one outcome: what can no longer reach the best is left out, unless
/// everything is stored.
pub open spec fn kept_one(
    scope: SearchScope,
    best: Seq<RankedCandidate>,
    taken: Option<RankedCandidate>,
    limit: usize,
    storing: bool,
) -> Seq<RankedCandidate> {
    match taken {
        Some(candidate) => if !storing && results::is_hopeless(
            candidate_bound(scope, candidate),
            results::threshold_of(best, limit),
        ) {
            best
        } else {
            ordering::offered(best, candidate, limit)
        },
        None => best,
    }
}

/// A list after the first `n` outcomes.
pub open spec fn kept_some(
    scope: SearchScope,
    best: Seq<RankedCandidate>,
    taken: Seq<Option<RankedCandidate>>,
    limit: usize,
    storing: bool,
    n: int,
) -> Seq<RankedCandidate>
    decreases n,
{
    if n <= 0 {
        best
    } else {
        kept_one(
            scope,
            kept_some(scope, best, taken, limit, storing, n - 1),
            taken[n - 1],
            limit,
            storing,
        )
    }
}

/// The candidates among the first `n` outcomes.
pub open spec fn present(taken: Seq<Option<RankedCandidate>>, n: int) -> Seq<RankedCandidate>
    decreases n,
{
    if n <= 0 {
        Seq::empty()
    } else {
        match taken[n - 1] {
            Some(candidate) => present(taken, n - 1).push(candidate),
            None => present(taken, n - 1),
        }
    }
}

/// What was found of entries.
#[derive(Debug, PartialEq, Eq)]
pub struct FoundInDirectory {
    /// Copies to store, where results are stored.
    pub stored: Vec<RankedCandidate>,
    /// The directories to look through as well.
    pub children: Vec<String>,
}

/// All that comes of the entries of a directory.
pub open spec fn found_in(
    taken: Seq<Option<RankedCandidate>>,
    scope: SearchScope,
    entries: Seq<FoundEntry>,
    folder: ScanFolder,
    directory: DirectoryScanContext,
    working_directory: Seq<char>,
    seen: Set<Seq<char>>,
    n: int,
) -> bool {
    &&& taken.len() == n
    &&& forall|i: int|
        0 <= i < n ==> is_taken(
            #[trigger] taken[i],
            scope,
            entries[i],
            folder,
            directory,
            working_directory,
            seen_after(scope, seen, entries, folder, directory, working_directory, i),
        )
}

proof fn lemma_offered_some_push(
    best: Seq<RankedCandidate>,
    taken: Seq<Option<RankedCandidate>>,
    more: Option<RankedCandidate>,
    limit: usize,
    n: int,
)
    requires
        0 <= n <= taken.len(),
    ensures
        offered_some(best, taken.push(more), limit, n) == offered_some(best, taken, limit, n),
        present(taken.push(more), n) == present(taken, n),
    decreases n,
{
    if n > 0 {
        lemma_offered_some_push(best, taken, more, limit, n - 1);
    }
}

proof fn lemma_kept_some_push(
    scope: SearchScope,
    best: Seq<RankedCandidate>,
    taken: Seq<Option<RankedCandidate>>,
    more: Option<RankedCandidate>,
    limit: usize,
    storing: bool,
    n: int,
)
    requires
        0 <= n <= taken.len(),
    ensures
        kept_some(scope, best, taken.push(more), limit, storing, n) == kept_some(
            scope,
            best,
            taken,
            limit,
            storing,
            n,
        ),
    decreases n,
{
    if n > 0 {
        lemma_kept_some_push(scope, best, taken, more, limit, storing, n - 1);
    }
}

/// What was taken is offered to the best, and copied where results are stored.
pub open spec fn takes(
    before: SearchRun,
    after: SearchRun,
    taken: Option<RankedCandidate>,
    copy: Option<RankedCandidate>,
) -> bool {
    &&& before.scope.keeps_ceiling() || before.limits.show_all ==> after.progress.best@ == (
    match taken {
        Some(candidate) => ordering::offered(
            before.progress.best@,
            candidate,
            before.limits.preview_limit,
        ),
        None => before.progress.best@,
    })
    &&& after.progress.best@ == kept_one(
        before.scope,
        before.progress.best@,
        taken,
        before.limits.preview_limit,
        before.limits.show_all,
    )
    &&& if before.limits.show_all {
        match (taken, copy) {
            (Some(candidate), Some(own)) => search_progress::same_candidate(own, candidate),
            (None, None) => true,
            _ => false,
        }
    } else {
        copy is None
    }
}

proof fn lemma_found_push(
    was: Seq<Option<RankedCandidate>>,
    now: Option<RankedCandidate>,
    scope: SearchScope,
    entries: Seq<FoundEntry>,
    folder: ScanFolder,
    directory: DirectoryScanContext,
    working_directory: Seq<char>,
    seen: Set<Seq<char>>,
    n: int,
)
    requires
        0 <= n < entries.len(),
        found_in(was, scope, entries, folder, directory, working_directory, seen, n),
        is_taken(
            now,
            scope,
            entries[n],
            folder,
            directory,
            working_directory,
            seen_after(scope, seen, entries, folder, directory, working_directory, n),
        ),
    ensures
        found_in(was.push(now), scope, entries, folder, directory, working_directory, seen, n + 1),
{
    let taken = was.push(now);
    assert forall|k: int| 0 <= k < n + 1 implies is_taken(
        #[trigger] taken[k],
        scope,
        entries[k],
        folder,
        directory,
        working_directory,
        seen_after(scope, seen, entries, folder, directory, working_directory, k),
    ) by {
        if k < n {
            assert(taken[k] == was[k]);
        }
    }
}

impl SearchRun {
    /// The query is prepared, and the best keep their limit.
    pub open spec fn well_formed(&self) -> bool {
        self.scope.well_formed() && self.progress.well_formed(self.limits.preview_limit)
    }

    /// Begins with rows. Gives copies of them to store where all results are asked for.
    pub fn start(
        generation: u64,
        limits: SearchLimits,
        scope: SearchScope,
        include_score_detail: bool,
        include_explanation: bool,
        rows: Vec<SearchResult>,
    ) -> (r: (SearchRun, Vec<RankedCandidate>))
        requires
            scope.well_formed(),
        ensures
            r.0.well_formed(),
            r.0.generation == generation,
            r.0.limits == limits,
            r.0.scope == scope,
            r.0.include_score_detail == include_score_detail,
            r.0.include_explanation == include_explanation,
            r.0.progress.best@ == ordering::offered_all(
                search_progress::row_candidates(rows@),
                limits.preview_limit,
            ),
            r.0.progress.seen@ == search_progress::row_keys(rows@, rows@.len() as int),
            r.0.progress.scanned_total == 0,
            search_progress::copies_of_rows(r.1@, rows@, limits.show_all),
    {
        let (progress, stored): (SearchProgress, Vec<RankedCandidate>) = SearchProgress::begin(
            rows,
            limits.preview_limit,
            limits.show_all,
        );
        (
            SearchRun {
                generation,
                limits,
                scope,
                include_score_detail,
                include_explanation,
                progress,
            },
            stored,
        )
    }

    /// A batch shows the best, in full or the first of them.
    pub open spec fn is_batch(
        &self,
        batch: SearchBatch,
        stage: SearchStage,
        done: bool,
        shown: Seq<RankedCandidate>,
    ) -> bool {
        &&& batch.generation == self.generation
        &&& batch.scanned_total == self.progress.scanned_total
        &&& batch.stage == stage
        &&& batch.done == done
        &&& batch.effective_limit == self.limits.effective_limit
        &&& batch.results@.len() == shown.len()
        &&& forall|i: int|
            0 <= i < shown.len() ==> search_progress::is_row_of(
                #[trigger] batch.results@[i],
                self.scope,
                shown[i],
                self.include_score_detail,
                self.include_explanation,
            )
    }

    /// The batch of what the search began with.
    pub fn history_batch(&self) -> (r: SearchBatch)
        requires
            self.well_formed(),
        ensures
            self.is_batch(r, SearchStage::History, false, self.progress.best@),
            r.result_store is None,
    {
        SearchBatch {
            generation: self.generation,
            results: search_progress::materialize_ranked_candidates(
                &self.scope,
                &self.progress.best,
                self.include_score_detail,
                self.include_explanation,
            ),
            scanned_total: self.progress.scanned_total,
            stage: SearchStage::History,
            done: false,
            effective_limit: self.limits.effective_limit,
            result_store: None,
        }
    }

    /// The batch to hand over in between, where one is due.
    pub fn due_batch(&self, stage: SearchStage, step: usize, interval_passed: bool, is_active: bool, default_limit: usize) -> (r:
        Option<SearchBatch>)
        requires
            self.well_formed(),
        ensures
            ({
                let due = self.progress.scanned_total > 0 && (search_progress::is_multiple(
                    self.progress.scanned_total,
                    step,
                ) || interval_passed) && is_active;
                match r {
                    None => !due,
                    Some(batch) => due && batch.result_store is None && exists|
                        copies: Seq<RankedCandidate>,
                    | #[trigger]
                        search_progress::same_candidates(copies, self.progress.best@)
                            && self.is_batch(
                            batch,
                            stage,
                            false,
                            if self.limits.effective_limit == usize::MAX {
                                ordering::first(
                                    ordering::ordered(copies),
                                    collect::at_least_one(default_limit),
                                )
                            } else {
                                copies
                            },
                        ),
                }
            }),
    {
        if !self.progress.is_publish_due(step, interval_passed, is_active) {
            return None;
        }
        let shown = search_progress::preview_candidates(
            &self.progress.best,
            self.limits.effective_limit,
            default_limit,
        );
        let results = search_progress::materialize_ranked_candidates(
            &self.scope,
            &shown,
            self.include_score_detail,
            self.include_explanation,
        );
        Some(
            SearchBatch {
                generation: self.generation,
                results,
                scanned_total: self.progress.scanned_total,
                stage,
                done: false,
                effective_limit: self.limits.effective_limit,
                result_store: None,
            },
        )
    }

    /// The last batch, with what came of storing all results.
    pub fn finish(&self, result_store: Option<ResultStoreCompletion>) -> (r: SearchBatch)
        requires
            self.well_formed(),
        ensures
            self.is_batch(r, SearchStage::Done, true, self.progress.best@),
            r.result_store == result_store,
    {
        last_batch(
            self.generation,
            search_progress::materialize_ranked_candidates(
                &self.scope,
                &self.progress.best,
                self.include_score_detail,
                self.include_explanation,
            ),
            self.progress.scanned_total,
            self.limits.effective_limit,
            result_store,
        )
    }

    /// Looks at an entry of a directory. Gives a copy to store where results are stored,
    /// and tells whether it is a directory to look through as well.
    fn scan_entry(
        &mut self,
        entry: &FoundEntry,
        folder: &ScanFolder,
        directory: &DirectoryScanContext,
        working_directory: &str,
    ) -> (r: (Option<RankedCandidate>, bool))
        requires
            old(self).well_formed(),
        ensures
            final(self).well_formed(),
            *final(self) == (SearchRun { progress: final(self).progress, ..*old(self) }),
            final(self).progress.scanned_total == arith::min_int(
                old(self).progress.scanned_total + (if passed_over(
                    *entry,
                    *folder,
                    working_directory@,
                ) {
                    0int
                } else {
                    1
                }),
                usize::MAX as int,
            ),
            final(self).progress.seen@ == (match entry_fit(
                old(self).scope,
                *entry,
                *folder,
                *directory,
                working_directory@,
            ) {
                Some(_) => old(self).progress.seen@.insert(text::fold(entry.path@)),
                None => old(self).progress.seen@,
            }),
            r.1 == (entry.is_dir && !passed_over(*entry, *folder, working_directory@)
                && scan::goes_deeper(folder.context.root, directory.depth)),
            exists|taken: Option<RankedCandidate>| #[trigger]
                is_taken(
                    taken,
                    old(self).scope,
                    *entry,
                    *folder,
                    *directory,
                    working_directory@,
                    old(self).progress.seen@,
                ) && takes(*old(self), *final(self), taken, r.0),
    {
        if scan::skips_entry(
            entry.path.as_str(),
            entry.is_dir,
            entry.is_reparse_point,
            folder.exclusions.as_slice(),
            working_directory,
        ) {
            proof {
                let none: Option<RankedCandidate> = None;
                assert(is_taken(
                    none,
                    self.scope,
                    *entry,
                    *folder,
                    *directory,
                    working_directory@,
                    self.progress.seen@,
                ));
            }
            return (None, false);
        }
        let ghost before = *self;
        let modified_at: Option<i64> = entry.modified_at;
        let load = || -> (m: Option<i64>)
            ensures
                m == modified_at,
            { modified_at };
        let name: Option<String> = Some(entry.file_name.clone());
        let copy = self.progress.look_at(
            &self.scope,
            entry.path.as_str(),
            &name,
            entry.is_dir,
            &folder.context,
            directory,
            self.limits.preview_limit,
            self.limits.show_all,
            load,
        );
        proof {
            let limit = before.limits.preview_limit;
            let storing = before.limits.show_all;
            let known = text::optional(name);
            assert(known == Some(entry.file_name@));
            let fit = scan::path_fit(
                before.scope,
                entry.path@,
                known,
                entry.is_dir,
                *directory,
            );
            let mut now: Option<RankedCandidate> = None;
            if fit is Some && !before.progress.seen@.contains(text::fold(entry.path@)) {
                let (item, time) = choose|item: LaunchItem, time: Option<i64>|
                    #![trigger scan::is_item_at(item, entry.path@, known, entry.is_dir, folder.context.root, *directory, time)]
                    scan::is_item_at(
                        item,
                        entry.path@,
                        known,
                        entry.is_dir,
                        folder.context.root,
                        *directory,
                        time,
                    ) && scan::can_load(before.scope, load, time) && search_progress::takes_up(
                        before.progress.best@,
                        self.progress.best@,
                        copy,
                        before.scope.candidate_of(item, fit->0),
                        results::is_hopeless(
                            before.scope.bound_of(item, fit->0),
                            results::threshold_of(before.progress.best@, limit),
                        ),
                        limit,
                        storing,
                    ) && (before.scope.keeps_ceiling() ==> self.progress.best@ == ordering::offered(
                        before.progress.best@,
                        before.scope.candidate_of(item, fit->0),
                        limit,
                    ));
                assert(time == known_time(before.scope, *entry));
                now = Some(before.scope.candidate_of(item, fit->0));
                assert(is_candidate_of(
                    now->0,
                    before.scope,
                    *entry,
                    *folder,
                    *directory,
                    fit->0,
                ));
            }
            assert(is_taken(
                now,
                before.scope,
                *entry,
                *folder,
                *directory,
                working_directory@,
                before.progress.seen@,
            ));
        }
        (copy, entry.is_dir && scan::may_descend(&folder.context.root, directory.depth))
    }

    /// Looks at the entries of a directory, one after the other. What fits and was not
    /// seen before is offered to the best; leaving out what can no longer reach them
    /// changes nothing, as long as no history score is above its ceiling.
    pub fn scan_entries(
        &mut self,
        entries: &[FoundEntry],
        folder: &ScanFolder,
        directory: &DirectoryScanContext,
        working_directory: &str,
    ) -> (r: FoundInDirectory)
        requires
            old(self).well_formed(),
        ensures
            final(self).well_formed(),
            final(self).generation == old(self).generation,
            final(self).limits == old(self).limits,
            final(self).scope == old(self).scope,
            final(self).include_score_detail == old(self).include_score_detail,
            final(self).include_explanation == old(self).include_explanation,
            final(self).progress.scanned_total == arith::min_int(
                old(self).progress.scanned_total + looked_at(
                    entries@,
                    *folder,
                    working_directory@,
                    entries@.len() as int,
                ),
                usize::MAX as int,
            ),
            final(self).progress.seen@ == seen_after(
                old(self).scope,
                old(self).progress.seen@,
                entries@,
                *folder,
                *directory,
                working_directory@,
                entries@.len() as int,
            ),
            text::texts(r.children@) == children(
                entries@,
                *folder,
                *directory,
                working_directory@,
                entries@.len() as int,
            ),
            !old(self).limits.show_all ==> r.stored@.len() == 0,
            exists|taken: Seq<Option<RankedCandidate>>| #[trigger]
                found_in(
                    taken,
                    old(self).scope,
                    entries@,
                    *folder,
                    *directory,
                    working_directory@,
                    old(self).progress.seen@,
                    entries@.len() as int,
                ) && final(self).progress.best@ == kept_some(
                    old(self).scope,
                    old(self).progress.best@,
                    taken,
                    old(self).limits.preview_limit,
                    old(self).limits.show_all,
                    entries@.len() as int,
                ) && (old(self).scope.keeps_ceiling() || old(self).limits.show_all
                    ==> final(self).progress.best@ == offered_some(
                    old(self).progress.best@,
                    taken,
                    old(self).limits.preview_limit,
                    entries@.len() as int,
                )) && (old(self).limits.show_all ==> search_progress::same_candidates(
                    r.stored@,
                    present(taken, entries@.len() as int),
                )),
    {
        let mut stored: Vec<RankedCandidate> = Vec::new();
        let mut children_found: Vec<String> = Vec::new();
        let ghost start = *self;
        let ghost wd = working_directory@;
        let ghost limit = self.limits.preview_limit;
        let ghost storing = self.limits.show_all;
        let ghost mut taken: Seq<Option<RankedCandidate>> = Seq::empty();
        let mut i: usize = 0;
        proof {
            assert(text::texts(children_found@) =~= children(entries@, *folder, *directory, wd, 0));
        }
        while i < entries.len()
            invariant
                i <= entries.len(),
                wd == working_directory@,
                self.well_formed(),
                *self == (SearchRun { progress: self.progress, ..start }),
                limit == start.limits.preview_limit,
                storing == start.limits.show_all,
                self.progress.scanned_total == arith::min_int(
                    start.progress.scanned_total + looked_at(entries@, *folder, wd, i as int),
                    usize::MAX as int,
                ),
                self.progress.seen@ == seen_after(
                    start.scope,
                    start.progress.seen@,
                    entries@,
                    *folder,
                    *directory,
                    wd,
                    i as int,
                ),
                text::texts(children_found@) == children(
                    entries@,
                    *folder,
                    *directory,
                    wd,
                    i as int,
                ),
                !storing ==> stored@.len() == 0,
                found_in(
                    taken,
                    start.scope,
                    entries@,
                    *folder,
                    *directory,
                    wd,
                    start.progress.seen@,
                    i as int,
                ),
                self.progress.best@ == kept_some(
                    start.scope,
                    start.progress.best@,
                    taken,
                    limit,
                    storing,
                    i as int,
                ),
                start.scope.keeps_ceiling() || storing ==> self.progress.best@ == offered_some(
                    start.progress.best@,
                    taken,
                    limit,
                    i as int,
                ),
                storing ==> search_progress::same_candidates(stored@, present(taken, i as int)),
            decreases entries.len() - i,
        {
            let entry = &entries[i];
            let ghost before = *self;
            let ghost was = taken;
            let (copy, is_child): (Option<RankedCandidate>, bool) = self.scan_entry(
                entry,
                folder,
                directory,
                working_directory,
            );
            proof {
                let now = choose|now: Option<RankedCandidate>| #[trigger]
                    is_taken(
                        now,
                        start.scope,
                        *entry,
                        *folder,
                        *directory,
                        wd,
                        before.progress.seen@,
                    ) && takes(before, *self, now, copy);
                taken = was.push(now);
                lemma_offered_some_push(start.progress.best@, was, now, limit, i as int);
                lemma_kept_some_push(
                    start.scope,
                    start.progress.best@,
                    was,
                    now,
                    limit,
                    storing,
                    i as int,
                );
                lemma_found_push(
                    was,
                    now,
                    start.scope,
                    entries@,
                    *folder,
                    *directory,
                    wd,
                    start.progress.seen@,
                    i as int,
                );
            }
            if let Some(copy) = copy {
                stored.push(copy);
            }
            if is_child {
                children_found.push(entry.path.clone());
            }
            proof {
                assert(text::texts(children_found@) =~= children(
                    entries@,
                    *folder,
                    *directory,
                    wd,
                    i + 1,
                ));
            }
            i += 1;
        }
        proof {
            assert(found_in(
                taken,
                start.scope,
                entries@,
                *folder,
                *directory,
                wd,
                start.progress.seen@,
                entries@.len() as int,
            ));
        }
        FoundInDirectory { stored, children: children_found }
    }
}

impl SearchRun {
    /// Looks at a search folder itself. Gives a copy to store where results are stored.
    pub fn visit_root<F: FnOnce() -> Option<i64>>(
        &mut self,
        path: &str,
        is_dir: bool,
        root: &RootScanContext,
        working_directory: &str,
        load: F,
    ) -> (r: Option<RankedCandidate>)
        requires
            old(self).well_formed(),
            root.root_name@ == scan::folder_name(root.root),
            old(self).scope.scoring.recency_date_enabled ==> call_requires(load, ()),
        ensures
            final(self).well_formed(),
            *final(self) == (SearchRun { progress: final(self).progress, ..*old(self) }),
            final(self).progress.scanned_total == arith::min_int(
                old(self).progress.scanned_total + 1,
                usize::MAX as int,
            ),
            exists|directory: DirectoryScanContext| #[trigger]
                scan::is_directory_of(directory, path@, *root, working_directory@)
                    && search_progress::looked(
                    old(self).progress,
                    final(self).progress,
                    r,
                    old(self).scope,
                    path@,
                    None,
                    is_dir,
                    root.root,
                    directory,
                    old(self).limits.preview_limit,
                    old(self).limits.show_all,
                    load,
                ),
    {
        let directory = scan::directory_of(path, root, working_directory);
        proof {
            assert(scan::is_directory_of(directory, path@, *root, working_directory@));
        }
        let no_name: Option<String> = None;
        self.progress.look_at(
            &self.scope,
            path,
            &no_name,
            is_dir,
            root,
            &directory,
            self.limits.preview_limit,
            self.limits.show_all,
            load,
        )
    }
}

// ---------------------------------------------------------------------------
// Through one directory
// ---------------------------------------------------------------------------

/// A search in a directory that the query names.
#[derive(Debug, PartialEq, Eq)]
pub struct DirectorySearch {
    pub generation: u64,
    pub limits: SearchLimits,
    pub scope: SearchScope,
    pub root: RootScanContext,
    pub include_score_detail: bool,
    pub include_explanation: bool,
    pub seen: KeySet,
    pub best: Vec<SearchResult>,
    pub scanned_total: usize,
}

/// The directory of a query as a search folder.
pub open spec fn is_browsed_root(root: IndexRoot, base: Seq<char>) -> bool {
    &&& root.raw@ == base
    &&& root.path matches Some(path) && path@ == base
    &&& root.enabled
    &&& root.score == 0
    &&& root.max_depth == 0
    &&& root.label@.len() == 0
    &&& root.keywords@.len() == 0
}

/// Rows in order and no more than a limit.
pub open spec fn rows_keep_limit(best: Seq<SearchResult>, limit: usize) -> bool {
    limit != usize::MAX ==> ordering::in_order(best) && (best.len() <= limit || best.len() <= 1)
}

/// What a filter is read by: the time, the environment, and what is known of the path
/// that it may name.
#[derive(Debug, PartialEq, Eq)]
pub struct FilterReading {
    pub now: i64,
    pub environment: Environment,
    pub is_dir: bool,
    pub parent_is_dir: bool,
}

/// A query is what a filter reads as.
pub open spec fn reads_filter(spec: SearchQuerySpec, filter: Seq<char>, reading: FilterReading) -> bool {
    exists|parsed: SearchQuerySpec|
        {
            &&& #[trigger] query::is_effective(spec, parsed)
            &&& query::specifies(
                parsed,
                filter,
                reading.now,
                match query::browsed_path(query::query_model(filter).search_text, reading.environment) {
                    None => None,
                    Some(path) => query::browsed(path, reading.is_dir, reading.parent_is_dir),
                },
            )
        }
}

impl DirectorySearch {
    /// The query is prepared, and the best keep their limit.
    pub open spec fn well_formed(&self) -> bool {
        &&& self.scope.well_formed()
        &&& self.root.root_name@ == scan::folder_name(self.root.root)
        &&& self.seen.well_formed()
        &&& rows_keep_limit(self.best@, self.limits.preview_limit)
    }

    /// A search in a directory by what stands behind it in the query, which is read as a
    /// query of its own. Where that names a path, it is known whether that, or the folder
    /// that it stands in, is a directory. What was launched before does not count.
    pub fn start(
        generation: u64,
        limits: SearchLimits,
        directory: &DirectoryBrowseSpec,
        reading: &FilterReading,
        scoring: ScoringConfig,
        wording: Wording,
        include_score_detail: bool,
        include_explanation: bool,
        working_directory: &str,
    ) -> (r: DirectorySearch)
        ensures
            r.well_formed(),
            r.generation == generation,
            r.limits == limits,
            reads_filter(r.scope.spec, directory.filter@, *reading),
            r.scope.scoring == scoring,
            r.scope.history.entries@.len() == 0,
            r.scope.wording == wording,
            is_browsed_root(r.root.root, directory.base@),
            r.root.well_formed(working_directory@),
            r.include_score_detail == include_score_detail,
            r.include_explanation == include_explanation,
            r.seen@ == Set::<Seq<char>>::empty(),
            r.best@.len() == 0,
            r.scanned_total == 0,
    {
        let root = IndexRoot {
            raw: directory.base.clone(),
            path: Some(directory.base.clone()),
            enabled: true,
            score: 0,
            max_depth: 0,
            label: String::new(),
            keywords: Vec::new(),
        };
        let parsed = query::parse_search_query(
            directory.filter.as_str(),
            reading.now,
            &reading.environment,
            reading.is_dir,
            reading.parent_is_dir,
        );
        let spec = parsed.effective_for_scoring();
        proof {
            assert(query::is_effective(spec, parsed));
        }
        DirectorySearch {
            generation,
            limits,
            scope: SearchScope::new(spec, scoring, HistoryTable { entries: Vec::new() }, wording),
            root: RootScanContext::new(root, working_directory),
            include_score_detail,
            include_explanation,
            seen: KeySet::new(),
            best: Vec::new(),
            scanned_total: 0,
        }
    }

    /// Looks at an entry of the directory; a directory that is a link is passed over.
    /// Gives a copy to store where results are stored.
    pub fn visit<F: FnOnce() -> Option<i64>>(
        &mut self,
        path: &str,
        is_linked_directory: bool,
        is_dir: bool,
        working_directory: &str,
        load: F,
    ) -> (r: Option<SearchResult>)
        requires
            old(self).well_formed(),
            old(self).scope.scoring.recency_date_enabled ==> call_requires(load, ()),
        ensures
            final(self).well_formed(),
            final(self).generation == old(self).generation,
            final(self).limits == old(self).limits,
            final(self).scope == old(self).scope,
            final(self).root == old(self).root,
            final(self).include_score_detail == old(self).include_score_detail,
            final(self).include_explanation == old(self).include_explanation,
            is_linked_directory ==> r is None && final(self).seen@ == old(self).seen@ && final(self).best@ == old(self).best@ && final(self).scanned_total == old(self).scanned_total,
            !is_linked_directory ==> {
                &&& final(self).scanned_total == arith::min_int(
                    old(self).scanned_total + 1,
                    usize::MAX as int,
                )
                &&& exists|found: Option<PreparedSearchResult>|
                    #![trigger scan::considers_alone(found, old(self).scope, path@, is_dir, old(self).root, working_directory@, old(self).seen@, final(self).seen@, 0, load)]
                    scan::considers_alone(
                        found,
                        old(self).scope,
                        path@,
                        is_dir,
                        old(self).root,
                        working_directory@,
                        old(self).seen@,
                        final(self).seen@,
                        0,
                        load,
                    ) && match found {
                        None => r is None && final(self).best@ == old(self).best@,
                        Some(prepared) => exists|row: SearchResult| #[trigger]
                            search_progress::is_row_of(
                                row,
                                old(self).scope,
                                prepared.candidate,
                                old(self).include_score_detail,
                                old(self).include_explanation,
                            ) && final(self).best@ == ordering::offered(
                                old(self).best@,
                                row,
                                old(self).limits.preview_limit,
                            ) && (match r {
                                Some(copy) => old(self).limits.show_all && results::same_result(
                                    copy,
                                    row,
                                ),
                                None => !old(self).limits.show_all,
                            }),
                    }
            },
    {
        if is_linked_directory {
            return None;
        }
        let ghost before = *self;
        let row = search_progress::consider_search_path_with_type(
            &self.scope,
            path,
            is_dir,
            &self.root,
            working_directory,
            &mut self.seen,
            &mut self.scanned_total,
            self.include_score_detail,
            self.include_explanation,
            load,
        );
        let ghost after = self.seen@;
        let ghost found = choose|found: Option<PreparedSearchResult>|
            #![trigger scan::considers_alone(found, before.scope, path@, is_dir, before.root, working_directory@, before.seen@, after, 0, load)]
            scan::considers_alone(
                found,
                before.scope,
                path@,
                is_dir,
                before.root,
                working_directory@,
                before.seen@,
                after,
                0,
                load,
            ) && match (found, row) {
                (Some(prepared), Some(shown)) => search_progress::is_row_of(
                    shown,
                    before.scope,
                    prepared.candidate,
                    before.include_score_detail,
                    before.include_explanation,
                ),
                (None, None) => true,
                _ => false,
            };
        proof {
            assert(scan::considers_alone(
                found,
                before.scope,
                path@,
                is_dir,
                before.root,
                working_directory@,
                before.seen@,
                after,
                0,
                load,
            ));
        }
        match row {
            None => {
                proof {
                    assert(found is None);
                    assert(self.best@ == before.best@);
                }
                None
            },
            Some(row) => {
                let ghost own = row;
                proof {
                    assert(search_progress::is_row_of(
                        row,
                        before.scope,
                        found->0.candidate,
                        before.include_score_detail,
                        before.include_explanation,
                    ));
                }
                let copy: Option<SearchResult> = if self.limits.show_all {
                    Some(row.copy())
                } else {
                    None
                };
                let _ = results::insert_bounded_search_result(
                    &mut self.best,
                    row,
                    self.limits.preview_limit,
                );
                proof {
                    assert(self.seen@ == after);
                    assert(self.best@ == ordering::offered(
                        before.best@,
                        own,
                        before.limits.preview_limit,
                    ));
                    assert(match copy {
                        Some(copy) => before.limits.show_all && results::same_result(copy, own),
                        None => !before.limits.show_all,
                    });
                }
                copy
            },
        }
    }

    /// The batch to hand over in between, where one is due.
    pub fn due_batch(&mut self, step: usize, interval_passed: bool, is_active: bool, default_limit: usize) -> (r:
        Option<SearchBatch>)
        requires
            old(self).well_formed(),
        ensures
            final(self).well_formed(),
            *final(self) == (DirectorySearch { best: final(self).best, ..*old(self) }),
            ({
                let due = old(self).scanned_total > 0 && (search_progress::is_multiple(
                    old(self).scanned_total,
                    step,
                ) || interval_passed) && is_active;
                let unlimited = old(self).limits.effective_limit == usize::MAX;
                &&& final(self).best@ == (if due && unlimited {
                    ordering::ordered(old(self).best@)
                } else {
                    old(self).best@
                })
                &&& match r {
                    None => !due,
                    Some(batch) => {
                        &&& due
                        &&& batch.generation == old(self).generation
                        &&& batch.scanned_total == old(self).scanned_total
                        &&& batch.stage == SearchStage::Directory
                        &&& !batch.done
                        &&& batch.effective_limit == old(self).limits.effective_limit
                        &&& batch.result_store is None
                        &&& results::same_results(
                            batch.results@,
                            if unlimited {
                                ordering::first(
                                    final(self).best@,
                                    collect::at_least_one(default_limit),
                                )
                            } else {
                                final(self).best@
                            },
                        )
                    },
                }
            }),
    {
        let due = self.scanned_total > 0 && (search_progress::is_multiple_of(
            self.scanned_total,
            step,
        ) || interval_passed) && is_active;
        if !due {
            return None;
        }
        let ghost before = self.best@;
        let mut rows: Vec<SearchResult> = Vec::new();
        std::mem::swap(&mut self.best, &mut rows);
        let (list, shown): (Vec<SearchResult>, Vec<SearchResult>) =
            results::progressive_search_results(
            rows,
            self.limits.effective_limit,
            default_limit,
        );
        proof {
            if self.limits.effective_limit == usize::MAX {
                ordering::lemma_ordered_in_order(before);
                lemma_ordered_len(before);
            }
        }
        self.best = list;
        Some(
            SearchBatch {
                generation: self.generation,
                results: shown,
                scanned_total: self.scanned_total,
                stage: SearchStage::Directory,
                done: false,
                effective_limit: self.limits.effective_limit,
                result_store: None,
            },
        )
    }

    /// The last batch, with what came of storing all results.
    pub fn finish(self, result_store: Option<ResultStoreCompletion>) -> (r: SearchBatch)
        ensures
            r == (SearchBatch {
                generation: self.generation,
                results: self.best,
                scanned_total: self.scanned_total,
                stage: SearchStage::Done,
                done: true,
                effective_limit: self.limits.effective_limit,
                result_store,
            }),
    {
        last_batch(
            self.generation,
            self.best,
            self.scanned_total,
            self.limits.effective_limit,
            result_store,
        )
    }
}

proof fn lemma_ordered_len(rows: Seq<SearchResult>)
    ensures
        ordering::ordered(rows).len() == rows.len(),
    decreases rows.len(),
{
    if rows.len() > 0 {
        lemma_ordered_len(rows.drop_last());
        ordering::lemma_ordered_in_order(rows.drop_last());
        ordering::lemma_put_in_order(ordering::ordered(rows.drop_last()), rows.last());
    }
}


// ---------------------------------------------------------------------------
// What a scan keeps
// ---------------------------------------------------------------------------

pub proof fn lemma_scan_offers_all(
    before: Seq<RankedCandidate>,
    taken: Seq<Option<RankedCandidate>>,
    limit: usize,
    n: int,
)
    requires
        0 <= n <= taken.len(),
    ensures
        offered_some(ordering::offered_all(before, limit), taken, limit, n)
            == ordering::offered_all(before + present(taken, n), limit),
    decreases n,
{
    if n == 0 {
        assert(before + present(taken, 0) =~= before);
    } else {
        lemma_scan_offers_all(before, taken, limit, n - 1);
        match taken[n - 1] {
            Some(candidate) => {
                let all = before + present(taken, n);
                assert(all.drop_last() =~= before + present(taken, n - 1));
                assert(all.last() == candidate);
            },
            None => {
                assert(present(taken, n) == present(taken, n - 1));
            },
        }
    }
}

/// A scan keeps the best of everything that was found before it and in it: the first of
/// all, in order, up to the limit.
pub proof fn lemma_scan_keeps_the_best(
    before: Seq<RankedCandidate>,
    taken: Seq<Option<RankedCandidate>>,
    limit: usize,
)
    requires
        limit != usize::MAX,
    ensures
        offered_some(ordering::offered_all(before, limit), taken, limit, taken.len() as int)
            == ordering::first(
            ordering::ordered(before + present(taken, taken.len() as int)),
            if limit == 0 {
                1int
            } else {
                limit as int
            },
        ),
{
    lemma_scan_offers_all(before, taken, limit, taken.len() as int);
    ordering::lemma_offered_all_is_ordered(
        before + present(taken, taken.len() as int),
        limit,
    );
}

// ---------------------------------------------------------------------------
// Entries to share
// ---------------------------------------------------------------------------

/// The places of those of the first `n` entries that are looked at.
pub open spec fn kept_places(
    entries: Seq<FoundEntry>,
    folder: ScanFolder,
    working_directory: Seq<char>,
    n: int,
) -> Seq<int>
    decreases n,
{
    if n <= 0 {
        Seq::empty()
    } else {
        let before = kept_places(entries, folder, working_directory, n - 1);
        if passed_over(entries[n - 1], folder, working_directory) {
            before
        } else {
            before.push(n - 1)
        }
    }
}

/// The paths of the directories among those of the first `n` entries that are looked at.
pub open spec fn kept_directories(
    entries: Seq<FoundEntry>,
    folder: ScanFolder,
    working_directory: Seq<char>,
    n: int,
) -> Seq<Seq<char>>
    decreases n,
{
    if n <= 0 {
        Seq::empty()
    } else {
        let before = kept_directories(entries, folder, working_directory, n - 1);
        if entries[n - 1].is_dir && !passed_over(entries[n - 1], folder, working_directory) {
            before.push(entries[n - 1].path@)
        } else {
            before
        }
    }
}

/// Numbers as they are counted with.
pub open spec fn place_values(v: Seq<usize>) -> Seq<int> {
    Seq::new(v.len(), |i: int| v[i] as int)
}

/// Tells which entries of a directory are looked at, and which directories are among them.
pub fn split_entries(entries: &[FoundEntry], folder: &ScanFolder, working_directory: &str) -> (r: (
    Vec<usize>,
    Vec<String>,
))
    ensures
        place_values(r.0@) == kept_places(
            entries@,
            *folder,
            working_directory@,
            entries@.len() as int,
        ),
        text::texts(r.1@) == kept_directories(
            entries@,
            *folder,
            working_directory@,
            entries@.len() as int,
        ),
{
    let mut kept: Vec<usize> = Vec::new();
    let mut directories: Vec<String> = Vec::new();
    let ghost wd = working_directory@;
    let mut i: usize = 0;
    proof {
        assert(place_values(kept@) =~= kept_places(entries@, *folder, wd, 0));
        assert(text::texts(directories@) =~= kept_directories(entries@, *folder, wd, 0));
    }
    while i < entries.len()
        invariant
            i <= entries.len(),
            wd == working_directory@,
            place_values(kept@) == kept_places(entries@, *folder, wd, i as int),
            text::texts(directories@) == kept_directories(entries@, *folder, wd, i as int),
        decreases entries.len() - i,
    {
        let entry = &entries[i];
        if !scan::skips_entry(
            entry.path.as_str(),
            entry.is_dir,
            entry.is_reparse_point,
            folder.exclusions.as_slice(),
            working_directory,
        ) {
            kept.push(i);
            if entry.is_dir {
                directories.push(entry.path.clone());
            }
        }
        i += 1;
        proof {
            assert(place_values(kept@) =~= kept_places(entries@, *folder, wd, i as int));
            assert(text::texts(directories@) =~= kept_directories(
                entries@,
                *folder,
                wd,
                i as int,
            ));
        }
    }
    (kept, directories)
}


// ---------------------------------------------------------------------------
// What is passed over, and what is looked into
// ---------------------------------------------------------------------------

/// Blank queries show what was launched, queries with a directory what is in it, and all
/// others what is found in the search folders.
pub proof fn lemma_ways_of_searching(spec: SearchQuerySpec)
    ensures
        way_of(spec) == SearchWay::RecentOrder <==> spec.mode == SearchQueryMode::BlankHistory,
        way_of(spec) == SearchWay::Folders <==> spec.mode == SearchQueryMode::NormalSearch,
        way_of(spec) == SearchWay::Directory <==> spec.mode == SearchQueryMode::DirectoryBrowse
            && spec.directory is Some,
{
}

/// A file is never passed over. A directory is where it is a link, or where it lies within
/// what the folder leaves to others.
pub proof fn lemma_only_directories_are_passed_over(
    entry: FoundEntry,
    folder: ScanFolder,
    working_directory: Seq<char>,
)
    ensures
        !entry.is_dir ==> !passed_over(entry, folder, working_directory),
        entry.is_dir && entry.is_reparse_point ==> passed_over(entry, folder, working_directory),
        entry.is_dir && !entry.is_reparse_point ==> (passed_over(entry, folder, working_directory)
            <==> exists|i: int|
            0 <= i < folder.exclusions@.len() && root_ownership::within(
                root_ownership::path_key(entry.path@, working_directory),
                (#[trigger] folder.exclusions@[i])@,
            )),
{
    let keys = text::texts(folder.exclusions@);
    let key = root_ownership::path_key(entry.path@, working_directory);
    if root_ownership::within_any(key, keys) {
        let i = choose|i: int| 0 <= i < keys.len() && root_ownership::within(key, #[trigger] keys[i]);
        assert(folder.exclusions@[i]@ == keys[i]);
    }
    if exists|i: int|
        0 <= i < folder.exclusions@.len() && root_ownership::within(
            key,
            (#[trigger] folder.exclusions@[i])@,
        ) {
        let i = choose|i: int|
            0 <= i < folder.exclusions@.len() && root_ownership::within(
                key,
                (#[trigger] folder.exclusions@[i])@,
            );
        assert(keys[i] == folder.exclusions@[i]@);
    }
}

/// The directories to look into next are all those that are not passed over, in their order,
/// where the limit of the folder is not reached, and none where it is.
pub proof fn lemma_directories_to_look_into(
    entries: Seq<FoundEntry>,
    folder: ScanFolder,
    directory: DirectoryScanContext,
    working_directory: Seq<char>,
    n: int,
)
    requires
        0 <= n <= entries.len(),
    ensures
        ({
            let wanted = |p: int|
                entries[p].is_dir && !passed_over(entries[p], folder, working_directory)
                    && scan::goes_deeper(folder.context.root, directory.depth);
            exists|from: Seq<int>| #[trigger]
                places::picks_all(from, n, wanted) && children(
                    entries,
                    folder,
                    directory,
                    working_directory,
                    n,
                ) == Seq::new(from.len(), |i: int| entries[from[i]].path@)
        }),
    decreases n,
{
    let wanted = |p: int|
        entries[p].is_dir && !passed_over(entries[p], folder, working_directory)
            && scan::goes_deeper(folder.context.root, directory.depth);
    if n > 0 {
        lemma_directories_to_look_into(entries, folder, directory, working_directory, n - 1);
        let from = choose|from: Seq<int>| #[trigger]
            places::picks_all(from, n - 1, wanted) && children(
                entries,
                folder,
                directory,
                working_directory,
                n - 1,
            ) == Seq::new(from.len(), |i: int| entries[from[i]].path@);
        places::lemma_pick_one_more(from, n - 1, wanted);
        let next = if wanted(n - 1) {
            from.push(n - 1)
        } else {
            from
        };
        assert(places::picks_all(next, n, wanted));
        assert(children(entries, folder, directory, working_directory, n) =~= Seq::new(
            next.len(),
            |i: int| entries[next[i]].path@,
        ));
    } else {
        let from = Seq::<int>::empty();
        assert(places::picks_all(from, n, wanted));
        assert(children(entries, folder, directory, working_directory, n) =~= Seq::new(
            from.len(),
            |i: int| entries[from[i]].path@,
        ));
    }
}

/// What is looked at is everything that is not passed over, in its order, and it is counted
/// once.
pub proof fn lemma_everything_else_is_looked_at(
    entries: Seq<FoundEntry>,
    folder: ScanFolder,
    working_directory: Seq<char>,
    n: int,
)
    requires
        0 <= n <= entries.len(),
    ensures
        places::picks_all(
            kept_places(entries, folder, working_directory, n),
            n,
            |p: int| !passed_over(entries[p], folder, working_directory),
        ),
        looked_at(entries, folder, working_directory, n) == kept_places(
            entries,
            folder,
            working_directory,
            n,
        ).len(),
    decreases n,
{
    let wanted = |p: int| !passed_over(entries[p], folder, working_directory);
    if n > 0 {
        lemma_everything_else_is_looked_at(entries, folder, working_directory, n - 1);
        places::lemma_pick_one_more(
            kept_places(entries, folder, working_directory, n - 1),
            n - 1,
            wanted,
        );
    }
}

/// What is seen is what was seen before and what fits, and nothing else.
pub proof fn lemma_what_is_seen(
    scope: SearchScope,
    seen: Set<Seq<char>>,
    entries: Seq<FoundEntry>,
    folder: ScanFolder,
    directory: DirectoryScanContext,
    working_directory: Seq<char>,
    n: int,
    key: Seq<char>,
)
    requires
        0 <= n <= entries.len(),
    ensures
        seen_after(scope, seen, entries, folder, directory, working_directory, n).contains(key)
            <==> seen.contains(key) || exists|i: int|
            0 <= i < n && text::fold((#[trigger] entries[i]).path@) == key && entry_fit(
                scope,
                entries[i],
                folder,
                directory,
                working_directory,
            ) is Some,
    decreases n,
{
    if n > 0 {
        lemma_what_is_seen(
            scope,
            seen,
            entries,
            folder,
            directory,
            working_directory,
            n - 1,
            key,
        );
        if text::fold(entries[n - 1].path@) == key && entry_fit(
            scope,
            entries[n - 1],
            folder,
            directory,
            working_directory,
        ) is Some {
            assert(text::fold((entries[n - 1]).path@) == key);
        }
    }
}

/// A directory that is browsed is looked through alone, without its own directories, and adds
/// nothing to any score.
pub proof fn lemma_browsing_stays_in_the_directory(root: IndexRoot, base: Seq<char>)
    requires
        is_browsed_root(root, base),
    ensures
        scan::looks_through(root, 0),
        !scan::goes_deeper(root, 0),
        root.score == 0,
        root.enabled,
        root.path is Some && root.path->0@ == base,
        root.keywords@.len() == 0,
{
}

/// An entry is taken where it fits and was not seen before, and only then; it is ranked as the
/// item that lies where it was found.
pub proof fn lemma_what_is_taken(
    taken: Option<RankedCandidate>,
    scope: SearchScope,
    entry: FoundEntry,
    folder: ScanFolder,
    directory: DirectoryScanContext,
    working_directory: Seq<char>,
    seen: Set<Seq<char>>,
)
    requires
        is_taken(taken, scope, entry, folder, directory, working_directory, seen),
    ensures
        taken is Some <==> entry_fit(scope, entry, folder, directory, working_directory) is Some
            && !seen.contains(text::fold(entry.path@)),
        taken matches Some(candidate) ==> exists|item: LaunchItem, text_score: i32|
            item.path@ == entry.path@ && item.is_dir == entry.is_dir && item.index_score
                == folder.context.root.score && item.subtitle@ == directory.subtitle@ && candidate
                == #[trigger] scope.candidate_of(item, text_score),
        entry.is_dir && entry.is_reparse_point ==> taken is None,
{
    if let Some(candidate) = taken {
        let text_score = entry_fit(scope, entry, folder, directory, working_directory)->0;
        let item = choose|item: LaunchItem| #[trigger]
            scan::is_item_at(
                item,
                entry.path@,
                Some(entry.file_name@),
                entry.is_dir,
                folder.context.root,
                directory,
                known_time(scope, entry),
            ) && candidate == scope.candidate_of(item, text_score);
        assert(candidate == scope.candidate_of(item, text_score));
    }
}

/// A batch is for the search that it comes from and shows its rows in their order, each with
/// the title of its candidate.
pub proof fn lemma_batches_show_their_rows(
    run: SearchRun,
    batch: SearchBatch,
    stage: SearchStage,
    done: bool,
    shown: Seq<RankedCandidate>,
    i: int,
)
    requires
        run.is_batch(batch, stage, done, shown),
        0 <= i < shown.len(),
    ensures
        batch.generation == run.generation,
        batch.scanned_total == run.progress.scanned_total,
        batch.stage == stage && batch.done == done,
        batch.effective_limit == run.limits.effective_limit,
        batch.results@.len() == shown.len(),
        batch.results@[i].title@ == shown[i].title_text(),
        batch.results@[i].subtitle@ == shown[i].subtitle_text(),
{
    assert(search_progress::is_row_of(
        batch.results@[i],
        run.scope,
        shown[i],
        run.include_score_detail,
        run.include_explanation,
    ));
}

/// The directories that are kept are all those that are not passed over, in their order.
pub proof fn lemma_kept_directories(
    entries: Seq<FoundEntry>,
    folder: ScanFolder,
    working_directory: Seq<char>,
    n: int,
)
    requires
        0 <= n <= entries.len(),
    ensures
        ({
            let wanted = |p: int|
                entries[p].is_dir && !passed_over(entries[p], folder, working_directory);
            exists|from: Seq<int>| #[trigger]
                places::picks_all(from, n, wanted) && kept_directories(
                    entries,
                    folder,
                    working_directory,
                    n,
                ) == Seq::new(from.len(), |i: int| entries[from[i]].path@)
        }),
    decreases n,
{
    let wanted = |p: int|
        entries[p].is_dir && !passed_over(entries[p], folder, working_directory);
    if n > 0 {
        lemma_kept_directories(entries, folder, working_directory, n - 1);
        let from = choose|from: Seq<int>| #[trigger]
            places::picks_all(from, n - 1, wanted) && kept_directories(
                entries,
                folder,
                working_directory,
                n - 1,
            ) == Seq::new(from.len(), |i: int| entries[from[i]].path@);
        places::lemma_pick_one_more(from, n - 1, wanted);
        let next = if wanted(n - 1) {
            from.push(n - 1)
        } else {
            from
        };
        assert(places::picks_all(next, n, wanted));
        assert(kept_directories(entries, folder, working_directory, n) =~= Seq::new(
            next.len(),
            |i: int| entries[next[i]].path@,
        ));
    } else {
        let from = Seq::<int>::empty();
        assert(places::picks_all(from, n, wanted));
        assert(kept_directories(entries, folder, working_directory, n) =~= Seq::new(
            from.len(),
            |i: int| entries[from[i]].path@,
        ));
    }
}

} // verus!
