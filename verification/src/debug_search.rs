//! A search that shows how every score comes about.

use crate::arith;
use crate::breakdown;
use crate::collect;
use crate::collect::HistoryTable;
use crate::index_roots::SEARCH_DEPTH_ALL;
use crate::items;
use crate::keyset::KeySet;
use crate::ordering;
use crate::ordering::{RankKey, Ranked};
use crate::recents;
use crate::results;
use crate::results::ScoreBreakdown;
use crate::text;
use crate::types::{IndexRoot, LaunchItem, ScoringConfig, SearchQuerySpec};
use crate::winpath;
use crate::wording::Wording;
use vstd::prelude::*;

verus! {

/// A scored item, placed by its final score and its title alone.
#[derive(Debug, PartialEq, Eq)]
pub struct DebugRow {
    pub breakdown: ScoreBreakdown,
}

impl Ranked for DebugRow {
    open spec fn rank_key(&self) -> RankKey {
        RankKey {
            priority: 0,
            score: self.breakdown.components.final_score as int,
            title: text::unicode_lowercase(self.breakdown.result.title@),
            subtitle: text::unicode_lowercase(""@),
            sequence: 0,
        }
    }

    fn outranks(&self, other: &DebugRow) -> (r: bool) {
        ordering::rank_less(
            (
                0,
                self.breakdown.components.final_score,
                self.breakdown.result.title.as_str(),
                "",
                0,
            ),
            (
                0,
                other.breakdown.components.final_score,
                other.breakdown.result.title.as_str(),
                "",
                0,
            ),
        )
    }
}

/// Rows of scored items.
pub open spec fn as_rows(found: Seq<ScoreBreakdown>) -> Seq<DebugRow> {
    Seq::new(found.len(), |i: int| DebugRow { breakdown: found[i] })
}

/// The keys of the paths that the first `n` scored items lead to.
pub open spec fn found_keys(found: Seq<ScoreBreakdown>, n: int) -> Set<Seq<char>>
    decreases n,
{
    if n <= 0 {
        Set::empty()
    } else {
        match results::target_path(found[n - 1].result) {
            Some(path) => found_keys(found, n - 1).insert(text::fold(path)),
            None => found_keys(found, n - 1),
        }
    }
}

/// Whether a directory of a depth is looked at: those that are looked through, and what
/// is in them.
pub fn may_visit(root: &IndexRoot, depth: usize) -> (r: bool)
    ensures
        r == (root.max_depth == SEARCH_DEPTH_ALL || depth <= arith::min_int(
            root.max_depth + 1,
            usize::MAX as int,
        )),
{
    root.max_depth == SEARCH_DEPTH_ALL || depth <= root.max_depth.saturating_add(1)
}

/// A search that shows how every score comes about.
#[derive(Debug, PartialEq, Eq)]
pub struct DebugSearch {
    pub spec: SearchQuerySpec,
    pub scoring: ScoringConfig,
    pub history: HistoryTable,
    pub wording: Wording,
    pub seen: KeySet,
    pub rows: Vec<DebugRow>,
}

/// The row of an item, where it fits the query.
pub open spec fn is_row_for(
    row: Option<DebugRow>,
    item: LaunchItem,
    spec: SearchQuerySpec,
    history: HistoryTable,
    scoring: ScoringConfig,
    wording: Wording,
) -> bool {
    let key = text::fold(item.path@);
    match breakdown::components_for(item, spec, collect::history_score(history, key), scoring) {
        None => row is None,
        Some(components) => {
            &&& row matches Some(found)
            &&& found.breakdown.components == components
            &&& results::materializes(
                found.breakdown.result,
                results::heuristic_candidate(item, components, false),
                spec,
                collect::history_raw(history, key),
                scoring,
                true,
                true,
                wording,
            )
        },
    }
}

/// Rows after one more, or none.
pub open spec fn with_row(rows: Seq<DebugRow>, row: Option<DebugRow>) -> Seq<DebugRow> {
    match row {
        Some(found) => rows.push(found),
        None => rows,
    }
}

impl DebugSearch {
    /// A search that begins with scored items.
    pub fn start(
        spec: SearchQuerySpec,
        scoring: ScoringConfig,
        history: HistoryTable,
        wording: Wording,
        found: Vec<ScoreBreakdown>,
    ) -> (r: DebugSearch)
        ensures
            r.spec == spec,
            r.scoring == scoring,
            r.history == history,
            r.wording == wording,
            r.seen.well_formed(),
            r.seen@ == found_keys(found@, found@.len() as int),
            r.rows@ == as_rows(found@),
    {
        let ghost all = found@;
        let mut seen = KeySet::new();
        let mut i: usize = 0;
        while i < found.len()
            invariant
                i <= found.len(),
                found@ == all,
                seen.well_formed(),
                seen@ == found_keys(all, i as int),
            decreases found.len() - i,
        {
            if let Some(path) = results::result_target_path(&found[i].result) {
                let key = recents::recent_item_key(path.as_str());
                seen.insert(key.as_str());
            }
            i += 1;
        }
        let mut rows: Vec<DebugRow> = Vec::new();
        for breakdown in it: found
            invariant
                it.seq() == all,
                rows@ == as_rows(all).take(it.index() as int),
        {
            rows.push(DebugRow { breakdown });
            proof {
                assert(rows@ =~= as_rows(all).take(it.index() + 1));
            }
        }
        proof {
            assert(as_rows(all).take(all.len() as int) =~= as_rows(all));
        }
        DebugSearch { spec, scoring, history, wording, seen, rows }
    }

    /// Looks at a path; one that was met before is passed over.
    pub fn consider(
        &mut self,
        path: &str,
        is_dir: bool,
        root: &IndexRoot,
        modified_at: Option<i64>,
        working_directory: &str,
    )
        requires
            old(self).seen.well_formed(),
        ensures
            final(self).seen.well_formed(),
            final(self).spec == old(self).spec,
            final(self).scoring == old(self).scoring,
            final(self).history == old(self).history,
            final(self).wording == old(self).wording,
            final(self).seen@ == old(self).seen@.insert(text::fold(path@)),
            if old(self).seen@.contains(text::fold(path@)) || items::candidate_title(
                path@,
                winpath::file_name(path@),
            ).len() == 0 {
                final(self).rows@ == old(self).rows@
            } else {
                exists|item: LaunchItem, row: Option<DebugRow>|
                    #![trigger is_row_for(row, item, old(self).spec, old(self).history, old(self).scoring, old(self).wording)]
                    items::item_of_path(item, path@, is_dir, *root, modified_at, working_directory@)
                        && is_row_for(
                        row,
                        item,
                        old(self).spec,
                        old(self).history,
                        old(self).scoring,
                        old(self).wording,
                    ) && final(self).rows@ == with_row(old(self).rows@, row)
            },
    {
        let key = recents::recent_item_key(path);
        if !self.seen.insert(key.as_str()) {
            return;
        }
        let item = match items::launch_item_from_path_with_type(
            path,
            is_dir,
            root,
            modified_at,
            working_directory,
        ) {
            Some(item) => item,
            None => {
                return;
            },
        };
        let own_key = recents::recent_item_key(item.path.as_str());
        let noted = self.history.lookup(own_key.as_str());
        let found = results::score_breakdown_with_config(
            &item,
            &self.spec,
            noted.0,
            &noted.1,
            &self.scoring,
            false,
            &self.wording,
        );
        match found {
            Some(breakdown) => {
                let row = DebugRow { breakdown };
                proof {
                    assert(is_row_for(
                        Some(row),
                        item,
                        self.spec,
                        self.history,
                        self.scoring,
                        self.wording,
                    ));
                }
                self.rows.push(row);
            },
            None => {
                proof {
                    assert(is_row_for(
                        None,
                        item,
                        self.spec,
                        self.history,
                        self.scoring,
                        self.wording,
                    ));
                }
            },
        }
    }

    /// The rows in order, up to a limit.
    pub fn finish(self, limit: usize) -> (r: Vec<DebugRow>)
        ensures
            r@ == ordering::first(
                ordering::ordered(self.rows@),
                if limit == 0 {
                    1int
                } else {
                    limit as int
                },
            ),
    {
        let mut rows = ordering::sort_in_order(self.rows);
        let count: usize = if limit == 0 {
            1
        } else {
            limit
        };
        rows.truncate(count);
        rows
    }
}

/// What is known at the start is where the scored items lead, folded.
pub proof fn lemma_known_at_the_start(found: Seq<ScoreBreakdown>, n: int, key: Seq<char>)
    requires
        0 <= n <= found.len(),
    ensures
        found_keys(found, n).contains(key) <==> exists|i: int|
            0 <= i < n && (match results::target_path((#[trigger] found[i]).result) {
                Some(path) => text::fold(path) == key,
                None => false,
            }),
    decreases n,
{
    if n > 0 {
        lemma_known_at_the_start(found, n - 1, key);
        if let Some(path) = results::target_path(found[n - 1].result) {
            if text::fold(path) == key {
                assert(match results::target_path(found[n - 1].result) {
                    Some(own) => text::fold(own) == key,
                    None => false,
                });
            }
        }
    }
}

/// A row is added where an item fits, behind all others, and none is taken away.
pub proof fn lemma_rows_are_added(rows: Seq<DebugRow>, row: Option<DebugRow>)
    ensures
        with_row(rows, row).take(rows.len() as int) == rows,
        with_row(rows, row).len() == rows.len() + (if row is Some {
            1int
        } else {
            0
        }),
        row matches Some(own) ==> with_row(rows, row).last() == own,
{
    assert(with_row(rows, row).take(rows.len() as int) =~= rows);
}

} // verus!
