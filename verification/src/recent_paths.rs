//! Results for paths that were launched before.

use crate::breakdown;
use crate::collect;
use crate::collect::HistoryTable;
use crate::explanation;
use crate::items;
use crate::ordering;
use crate::ordering::{RankKey, Ranked};
use crate::places;
use crate::query_rules::PathState;
use crate::recents;
use crate::results;
use crate::results::{LaunchTarget, ScoreBreakdown, SearchResult};
use crate::root_ownership;
use crate::root_ownership::RootOwnershipPlan;
use crate::search_roots;
use crate::text;
use crate::types;
use crate::types::{IndexRoot, LaunchItem, ResultRankingKind, ScoringConfig, SearchQuerySpec};
use crate::winpath;
use crate::wording::Wording;
use vstd::prelude::*;

verus! {

/// A path that was launched before, and what stands there now.
#[derive(Debug, PartialEq, Eq)]
pub struct RecentPath {
    pub key: String,
    pub path: String,
    pub state: Option<PathState>,
}

/// The keys of paths.
pub open spec fn keys_of(list: Seq<RecentPath>) -> Seq<Seq<char>> {
    Seq::new(list.len(), |i: int| list[i].key@)
}

/// The places of those of the first `n` paths that stand for something and whose key
/// none before them has.
pub open spec fn present_rows(list: Seq<RecentPath>, n: int) -> Seq<int>
    decreases n,
{
    if n <= 0 {
        Seq::empty()
    } else if list[n - 1].state is Some && !keys_of(list).take(n - 1).contains(list[n - 1].key@) {
        present_rows(list, n - 1).push(n - 1)
    } else {
        present_rows(list, n - 1)
    }
}

fn collect_present_rows(list: &[RecentPath]) -> (r: Vec<usize>)
    ensures
        recents::place_values(r@) == present_rows(list@, list@.len() as int),
        forall|i: int|
            0 <= i < r@.len() ==> (#[trigger] r@[i]) < list@.len() && list@[r@[i] as int].state
                is Some,
{
    let ghost keys = keys_of(list@);
    let mut out: Vec<usize> = Vec::new();
    let mut i: usize = 0;
    proof {
        assert(recents::place_values(out@) =~= Seq::<int>::empty());
    }
    while i < list.len()
        invariant
            i <= list.len(),
            keys == keys_of(list@),
            recents::place_values(out@) == present_rows(list@, i as int),
            forall|k: int|
                0 <= k < out@.len() ==> (#[trigger] out@[k]) < list@.len()
                    && list@[out@[k] as int].state is Some,
        decreases list.len() - i,
    {
        let mut seen = false;
        let mut k: usize = 0;
        while k < i && !seen
            invariant
                k <= i < list@.len(),
                keys == keys_of(list@),
                seen ==> keys.take(i as int).contains(list@[i as int].key@),
                !seen ==> forall|m: int| 0 <= m < k ==> keys[m] != list@[i as int].key@,
            decreases i - k,
        {
            if text::same_text(list[k].key.as_str(), list[i].key.as_str()) {
                proof {
                    assert(keys.take(i as int)[k as int] == list@[i as int].key@);
                }
                seen = true;
            }
            k += 1;
        }
        proof {
            if !seen && keys.take(i as int).contains(list@[i as int].key@) {
                let m = choose|m: int|
                    0 <= m < i && keys.take(i as int)[m] == list@[i as int].key@;
                assert(keys[m] == list@[i as int].key@);
            }
        }
        let present = match &list[i].state {
            Some(_) => true,
            None => false,
        };
        if present && !seen {
            let ghost before = out@;
            out.push(i);
            proof {
                assert(recents::place_values(out@) =~= recents::place_values(before).push(
                    i as int,
                ));
            }
        }
        i += 1;
    }
    out
}

// ---------------------------------------------------------------------------
// In the order of launching
// ---------------------------------------------------------------------------

/// The name under which a path is shown.
pub open spec fn display_name(path: Seq<char>) -> Seq<char> {
    match winpath::file_name(path) {
        Some(name) => if text::trimmed(name).len() > 0 {
            name
        } else {
            "Shortcut"@
        },
        None => "Shortcut"@,
    }
}

/// The name under which a path is shown.
pub fn path_display_name(path: &str) -> (r: String)
    ensures
        r@ == display_name(path@),
{
    match winpath::file_name_of(path) {
        Some(name) => {
            let plain = text::trim_text(name.as_str());
            if plain.as_str().is_empty() {
                "Shortcut".to_owned()
            } else {
                name
            }
        },
        None => "Shortcut".to_owned(),
    }
}

/// The result of a path in the order in which paths were launched.
pub open spec fn shows_path(
    result: SearchResult,
    recent: RecentPath,
    include_explanation: bool,
    wording: Wording,
) -> bool {
    &&& result.title@ == display_name(recent.path@)
    &&& result.subtitle@ == (match winpath::parent(recent.path@) {
        Some(folder) => folder,
        None => ""@,
    })
    &&& result.target matches LaunchTarget::Path(path) && path@ == recent.path@
    &&& recent.state matches Some(state) && result.is_dir == state.is_dir
    &&& result.from_history
    &&& !result.from_query_launch_rule
    &&& result.ranking_kind == ResultRankingKind::RecentOrder
    &&& (result.explanation is Some) == include_explanation
    &&& result.explanation matches Some(e) ==> explanation::is_special(
        e,
        ResultRankingKind::RecentOrder,
        ""@,
        recent.path@,
        ""@,
        0,
        0,
        wording,
    )
    &&& result.display_score == 0
    &&& result.score_detail@ == "recent order"@
    &&& result.score == 0
}

fn path_result(
    recent: &RecentPath,
    include_explanation: bool,
    wording: &Wording,
) -> (r: SearchResult)
    requires
        recent.state is Some,
    ensures
        shows_path(r, *recent, include_explanation, *wording),
{
    let subtitle: String = match winpath::parent_of(recent.path.as_str()) {
        Some(folder) => folder,
        None => "".to_owned(),
    };
    let is_dir = match &recent.state {
        Some(state) => state.is_dir,
        None => false,
    };
    let explanation = if include_explanation {
        Some(
            explanation::special_score_explanation(
                ResultRankingKind::RecentOrder,
                "",
                recent.path.as_str(),
                0,
                wording,
            ),
        )
    } else {
        None
    };
    SearchResult {
        title: path_display_name(recent.path.as_str()),
        subtitle,
        target: LaunchTarget::Path(recent.path.clone()),
        is_dir,
        from_history: true,
        from_query_launch_rule: false,
        ranking_kind: ResultRankingKind::RecentOrder,
        explanation,
        display_score: 0,
        score_detail: "recent order".to_owned(),
        score: 0,
    }
}

/// Results are those of the paths launched before that are still there, in that order, each
/// once and up to a limit.
pub open spec fn shows_launched(
    r: Seq<SearchResult>,
    list: Seq<RecentPath>,
    effective_limit: usize,
    include_explanation: bool,
    wording: Wording,
) -> bool {
    let rows = ordering::first(
        present_rows(list, list.len() as int),
        collect::at_least_one(effective_limit),
    );
    &&& r.len() == rows.len()
    &&& forall|i: int|
        0 <= i < rows.len() ==> shows_path(
            #[trigger] r[i],
            list[rows[i]],
            include_explanation,
            wording,
        )
}

/// The paths that were launched before and are still there, in that order, each once
/// and up to a limit.
pub fn collect_recent_path_order_results_with_explanation(
    list: &[RecentPath],
    effective_limit: usize,
    include_explanation: bool,
    wording: &Wording,
) -> (r: Vec<SearchResult>)
    ensures
        ({
            let rows = ordering::first(
                present_rows(list@, list@.len() as int),
                collect::at_least_one(effective_limit),
            );
            &&& r@.len() == rows.len()
            &&& forall|i: int|
                0 <= i < rows.len() ==> shows_path(
                    #[trigger] r@[i],
                    list@[rows[i]],
                    include_explanation,
                    *wording,
                )
        }),
        shows_launched(r@, list@, effective_limit, include_explanation, *wording),
        list@.len() > 0 && list@[0].state is Some ==> r@.len() > 0 && shows_path(
            r@[0],
            list@[0],
            include_explanation,
            *wording,
        ),
{
    let rows = collect_present_rows(list);
    let ghost values = recents::place_values(rows@);
    let limit: usize = if effective_limit == 0 {
        1
    } else {
        effective_limit
    };
    let count: usize = if rows.len() > limit {
        limit
    } else {
        rows.len()
    };
    let mut out: Vec<SearchResult> = Vec::new();
    let mut i: usize = 0;
    proof {
        assert(values.len() == rows@.len());
    }
    while i < count
        invariant
            i <= count <= rows.len(),
            values == recents::place_values(rows@),
            forall|k: int|
                0 <= k < rows@.len() ==> (#[trigger] rows@[k]) < list@.len()
                    && list@[rows@[k] as int].state is Some,
            out@.len() == i,
            forall|k: int|
                0 <= k < i ==> shows_path(
                    #[trigger] out@[k],
                    list@[values[k]],
                    include_explanation,
                    *wording,
                ),
        decreases count - i,
    {
        proof {
            assert(rows@[i as int] < list@.len());
            assert(values[i as int] == rows@[i as int]);
        }
        out.push(path_result(&list[rows[i]], include_explanation, wording));
        i += 1;
    }
    proof {
        assert(shows_launched(out@, list@, effective_limit, include_explanation, *wording));
        if list@.len() > 0 && list@[0].state is Some {
            lemma_latest_is_first(out@, list@, effective_limit, include_explanation, *wording);
        }
    }
    out
}

// ---------------------------------------------------------------------------
// By score
// ---------------------------------------------------------------------------

/// Breakdowns are placed by rule, score and title.
impl Ranked for ScoreBreakdown {
    open spec fn rank_key(&self) -> RankKey {
        RankKey {
            priority: if self.result.from_query_launch_rule {
                1
            } else {
                0
            },
            score: self.result.score as int,
            title: text::unicode_lowercase(self.result.title@),
            subtitle: text::unicode_lowercase(""@),
            sequence: 0,
        }
    }

    fn outranks(&self, other: &ScoreBreakdown) -> (r: bool) {
        ordering::rank_less(
            (
                if self.result.from_query_launch_rule {
                    1
                } else {
                    0
                },
                self.result.score,
                self.result.title.as_str(),
                "",
                0,
            ),
            (
                if other.result.from_query_launch_rule {
                    1
                } else {
                    0
                },
                other.result.score,
                other.result.title.as_str(),
                "",
                0,
            ),
        )
    }
}

/// What does not change from path to path.
pub struct MatchScope {
    pub spec: SearchQuerySpec,
    pub plan: RootOwnershipPlan,
    pub history: HistoryTable,
    pub scoring: ScoringConfig,
    pub default_depth: usize,
    pub working_directory: String,
    pub wording: Wording,
    pub include_score_detail: bool,
    pub include_explanation: bool,
}

impl MatchScope {
    /// Some search folder asks for one of the keywords of the query.
    pub open spec fn any_match(&self) -> bool {
        search_roots::any_root_matches(self.plan.entries@, text::texts(self.spec.modifiers@))
    }

    /// The search folder that a path is scored for: the innermost one that answers the
    /// query, else the one that owns the path, else the path's own folder.
    pub open spec fn scored_for(&self, root: IndexRoot, path: Seq<char>) -> bool {
        let key = root_ownership::path_key(path, self.working_directory@);
        let wanted = text::texts(self.spec.modifiers@);
        if exists|i: int|
            search_roots::eligible(self.plan.entries@, key, wanted, self.any_match(), i) {
            exists|i: int|
                search_roots::deepest(self.plan.entries@, key, wanted, self.any_match(), i)
                    && types::same_root(root, self.plan.entries@[i].root)
        } else {
            search_roots::stands_for(
                root,
                path,
                self.plan,
                self.default_depth,
                self.working_directory@,
            )
        }
    }

    /// The search folder answers the query and reaches the path.
    pub open spec fn reaches(&self, root: IndexRoot, path: Seq<char>) -> bool {
        &&& search_roots::root_applies(
            root,
            text::texts(self.spec.modifiers@),
            self.any_match(),
        )
        &&& search_roots::within_depth(path, root, self.working_directory@)
    }

    /// What came of a path: the breakdown of its item in the folder that it is scored
    /// for, or nothing where that folder does not reach it, it has no title, or its
    /// item does not fit.
    pub open spec fn comes_of(
        &self,
        found: Option<ScoreBreakdown>,
        recent: RecentPath,
        root: IndexRoot,
        item: Option<LaunchItem>,
    ) -> bool {
        let path = recent.path@;
        let state = recent.state->0;
        &&& self.scored_for(root, path)
        &&& match item {
            None => items::candidate_title(path, winpath::file_name(path)).len() == 0,
            Some(i) => items::candidate_title(path, winpath::file_name(path)).len() > 0
                && items::item_of_path(
                i,
                path,
                state.is_dir,
                root,
                state.modified_at,
                self.working_directory@,
            ),
        }
        &&& match (self.reaches(root, path), item) {
            (true, Some(i)) => match breakdown::components_for(
                i,
                self.spec,
                collect::history_score(self.history, text::fold(i.path@)),
                self.scoring,
            ) {
                None => found is None,
                Some(components) => found matches Some(b) && b.components == components
                    && results::materializes(
                    b.result,
                    results::heuristic_candidate(i, components, true),
                    self.spec,
                    collect::history_raw(self.history, text::fold(i.path@)),
                    self.scoring,
                    self.include_score_detail,
                    self.include_explanation,
                    self.wording,
                ),
            },
            _ => found is None,
        }
    }

    fn root_of(&self, path: &str, any_match: bool) -> (r: IndexRoot)
        requires
            self.plan.well_formed(),
            any_match == self.any_match(),
        ensures
            self.scored_for(r, path@),
    {
        match search_roots::deepest_eligible_root_for_path(
            &self.plan,
            path,
            self.spec.modifiers.as_slice(),
            any_match,
            self.working_directory.as_str(),
        ) {
            Some(entry) => {
                proof {
                    let key = root_ownership::path_key(path@, self.working_directory@);
                    let wanted = text::texts(self.spec.modifiers@);
                    let i = choose|i: int|
                        search_roots::deepest(
                            self.plan.entries@,
                            key,
                            wanted,
                            self.any_match(),
                            i,
                        ) && *entry == self.plan.entries@[i];
                    assert(search_roots::eligible(
                        self.plan.entries@,
                        key,
                        wanted,
                        self.any_match(),
                        i,
                    ));
                }
                entry.root.copy()
            },
            None => search_roots::recent_path_root(
                path,
                &self.plan,
                self.default_depth,
                self.working_directory.as_str(),
            ),
        }
    }

    fn score_path(&self, recent: &RecentPath, any_match: bool) -> (r: Option<ScoreBreakdown>)
        requires
            self.plan.well_formed(),
            any_match == self.any_match(),
            recent.state is Some,
        ensures
            can_come_of(*self, r, *recent),
    {
        let path = recent.path.as_str();
        let root = self.root_of(path, any_match);
        let (is_dir, modified_at): (bool, Option<i64>) = match &recent.state {
            Some(state) => (state.is_dir, state.modified_at),
            None => (false, None),
        };
        let item = items::launch_item_from_path_with_type(
            path,
            is_dir,
            &root,
            modified_at,
            self.working_directory.as_str(),
        );
        let applies = search_roots::root_matches_query_modifiers(
            &root,
            self.spec.modifiers.as_slice(),
            any_match,
        );
        let inside = search_roots::path_is_within_root_depth(
            path,
            &root,
            self.working_directory.as_str(),
        );
        let found: Option<ScoreBreakdown> = match &item {
            None => None,
            Some(i) => {
                if !applies || !inside {
                    None
                } else {
                    let key = recents::recent_item_key(i.path.as_str());
                    let (score, raw): (i32, Option<String>) = self.history.lookup(key.as_str());
                    results::score_breakdown_with_config_and_detail(
                        i,
                        &self.spec,
                        score,
                        &raw,
                        &self.scoring,
                        true,
                        self.include_score_detail,
                        self.include_explanation,
                        &self.wording,
                    )
                }
            },
        };
        proof {
            assert(self.comes_of(found, *recent, root, item));
        }
        found
    }
}

/// Something that can come of a path.
pub open spec fn can_come_of(
    scope: MatchScope,
    outcome: Option<ScoreBreakdown>,
    recent: RecentPath,
) -> bool {
    exists|root: IndexRoot, item: Option<LaunchItem>| #[trigger]
        scope.comes_of(outcome, recent, root, item)
}

/// What came of the paths of rows.
pub open spec fn come_of(
    scope: MatchScope,
    outcomes: Seq<Option<ScoreBreakdown>>,
    list: Seq<RecentPath>,
    rows: Seq<int>,
) -> bool {
    &&& outcomes.len() == rows.len()
    &&& forall|k: int|
        0 <= k < outcomes.len() ==> can_come_of(scope, #[trigger] outcomes[k], list[rows[k]])
}

/// The breakdowns among the first `n` outcomes.
pub open spec fn present_outcomes(outcomes: Seq<Option<ScoreBreakdown>>, n: int) -> Seq<
    ScoreBreakdown,
>
    decreases n,
{
    if n <= 0 {
        Seq::empty()
    } else {
        match outcomes[n - 1] {
            Some(b) => present_outcomes(outcomes, n - 1).push(b),
            None => present_outcomes(outcomes, n - 1),
        }
    }
}

proof fn lemma_present_outcomes_push(
    outcomes: Seq<Option<ScoreBreakdown>>,
    outcome: Option<ScoreBreakdown>,
    n: int,
)
    requires
        0 <= n <= outcomes.len(),
    ensures
        present_outcomes(outcomes.push(outcome), n) == present_outcomes(outcomes, n),
    decreases n,
{
    if n > 0 {
        lemma_present_outcomes_push(outcomes, outcome, n - 1);
    }
}

/// The breakdowns of the paths launched before that are still there and fit a query,
/// in order and up to a limit.
pub fn collect_recent_path_match_breakdowns_with_detail(
    scope: &MatchScope,
    list: &[RecentPath],
    limit: usize,
) -> (r: Vec<ScoreBreakdown>)
    requires
        scope.plan.well_formed(),
    ensures
        exists|outcomes: Seq<Option<ScoreBreakdown>>| #[trigger]
            come_of(*scope, outcomes, list@, present_rows(list@, list@.len() as int)) && r@
                == ordering::first(
                ordering::ordered(present_outcomes(outcomes, outcomes.len() as int)),
                collect::at_least_one(limit),
            ),
{
    let any_match = search_roots::any_root_modifier_match(
        &scope.plan,
        scope.spec.modifiers.as_slice(),
    );
    let rows = collect_present_rows(list);
    let ghost values = recents::place_values(rows@);
    let ghost mut outcomes: Seq<Option<ScoreBreakdown>> = Seq::empty();
    let mut found: Vec<ScoreBreakdown> = Vec::new();
    let mut i: usize = 0;
    proof {
        assert(values.len() == rows@.len());
        assert(found@ =~= present_outcomes(outcomes, 0));
    }
    while i < rows.len()
        invariant
            i <= rows.len(),
            scope.plan.well_formed(),
            any_match == scope.any_match(),
            values == recents::place_values(rows@),
            forall|k: int|
                0 <= k < rows@.len() ==> (#[trigger] rows@[k]) < list@.len()
                    && list@[rows@[k] as int].state is Some,
            outcomes.len() == i,
            forall|k: int|
                0 <= k < outcomes.len() ==> can_come_of(
                    *scope,
                    #[trigger] outcomes[k],
                    list@[values[k]],
                ),
            found@ == present_outcomes(outcomes, outcomes.len() as int),
        decreases rows.len() - i,
    {
        proof {
            assert(rows@[i as int] < list@.len());
            assert(values[i as int] == rows@[i as int]);
        }
        let outcome = scope.score_path(&list[rows[i]], any_match);
        let ghost before = outcomes;
        proof {
            outcomes = outcomes.push(outcome);
            lemma_present_outcomes_push(before, outcome, before.len() as int);
            assert forall|k: int| 0 <= k < outcomes.len() implies can_come_of(
                *scope,
                #[trigger] outcomes[k],
                list@[values[k]],
            ) by {
                if k < before.len() {
                    assert(outcomes[k] == before[k]);
                }
            }
        }
        match outcome {
            Some(scored) => {
                found.push(scored);
            },
            None => {},
        }
        i += 1;
    }
    let mut sorted = ordering::sort_in_order(found);
    let ghost whole = sorted@;
    let most: usize = if limit == 0 {
        1
    } else {
        limit
    };
    if sorted.len() > most {
        sorted.truncate(most);
        proof {
            assert(sorted@ =~= whole.take(most as int));
        }
    }
    proof {
        assert(come_of(*scope, outcomes, list@, values));
    }
    sorted
}

/// The rows of breakdowns.
pub open spec fn rows_of(breakdowns: Seq<ScoreBreakdown>) -> Seq<SearchResult> {
    Seq::new(breakdowns.len(), |i: int| breakdowns[i].result)
}

/// The rows of the paths launched before that are still there and fit a query, in order
/// and up to a limit.
pub fn collect_recent_path_matches_with_detail(
    scope: &MatchScope,
    list: &[RecentPath],
    limit: usize,
) -> (r: Vec<SearchResult>)
    requires
        scope.plan.well_formed(),
    ensures
        recent_matches(*scope, list@, limit, r@),
{
    let found = collect_recent_path_match_breakdowns_with_detail(scope, list, limit);
    let ghost all = found@;
    let mut source = found;
    let mut rows: Vec<SearchResult> = Vec::new();
    proof {
        assert(rows_of(all).take(0) =~= rows@);
    }
    while source.len() > 0
        invariant
            rows@.len() + source@.len() == all.len(),
            source@ == all.skip(rows@.len() as int),
            rows@ == rows_of(all).take(rows@.len() as int),
        decreases source@.len(),
    {
        let ghost n = rows@.len() as int;
        let breakdown = source.remove(0);
        proof {
            assert(breakdown == all[n]);
            assert(source@ =~= all.skip(n + 1));
        }
        rows.push(breakdown.result);
        proof {
            assert(rows@ =~= rows_of(all).take(n + 1));
        }
    }
    proof {
        assert(rows@ =~= rows_of(all));
    }
    rows
}

/// Rows are those of the paths launched before that are still there and fit a query, in
/// order and up to a limit.
pub open spec fn recent_matches(
    scope: MatchScope,
    list: Seq<RecentPath>,
    limit: usize,
    rows: Seq<SearchResult>,
) -> bool {
    exists|outcomes: Seq<Option<ScoreBreakdown>>| #[trigger]
        come_of(scope, outcomes, list, present_rows(list, list.len() as int)) && rows == rows_of(
            ordering::first(
                ordering::ordered(present_outcomes(outcomes, outcomes.len() as int)),
                collect::at_least_one(limit),
            ),
        )
}

// ---------------------------------------------------------------------------
// The latest first
// ---------------------------------------------------------------------------

/// The rows of paths launched before are the places of those that stand for something and
/// whose key no earlier path has, all of them, in the order of the list.
pub proof fn lemma_present_rows(list: Seq<RecentPath>, n: int)
    requires
        0 <= n <= list.len(),
    ensures
        places::picks_all(
            present_rows(list, n),
            n,
            |p: int|
                list[p].state is Some && forall|m: int|
                    0 <= m < p ==> (#[trigger] list[m]).key@ != list[p].key@,
        ),
    decreases n,
{
    let wanted = |p: int|
        list[p].state is Some && forall|m: int|
            0 <= m < p ==> (#[trigger] list[m]).key@ != list[p].key@;
    if n > 0 {
        lemma_present_rows(list, n - 1);
        let p = n - 1;
        let earlier = keys_of(list).take(p);
        assert(earlier.contains(list[p].key@) == exists|m: int|
            0 <= m < p && (#[trigger] list[m]).key@ == list[p].key@) by {
            if earlier.contains(list[p].key@) {
                let m = earlier.index_of(list[p].key@);
                assert(list[m].key@ == list[p].key@);
            }
            if exists|m: int| 0 <= m < p && (#[trigger] list[m]).key@ == list[p].key@ {
                let m = choose|m: int| 0 <= m < p && (#[trigger] list[m]).key@ == list[p].key@;
                assert(earlier[m] == list[p].key@);
            }
        }
        places::lemma_pick_one_more(present_rows(list, p), p, wanted);
    }
}

/// For a blank query the paths launched before come in the order of their list: the places
/// that the results come from rise, none is left out before the limit is reached, and a first
/// path that is still there is the first result.
pub proof fn lemma_latest_is_first(
    r: Seq<SearchResult>,
    list: Seq<RecentPath>,
    effective_limit: usize,
    include_explanation: bool,
    wording: Wording,
)
    requires
        shows_launched(r, list, effective_limit, include_explanation, wording),
    ensures
        ({
            let wanted = |p: int|
                list[p].state is Some && forall|m: int|
                    0 <= m < p ==> (#[trigger] list[m]).key@ != list[p].key@;
            exists|all: Seq<int>| #[trigger]
            places::picks_all(all, list.len() as int, wanted) && r.len() <= all.len() && (r.len() < all.len() ==> r.len() == (if effective_limit
                == 0 {
                1
            } else {
                effective_limit as int
            })) && (r.len() <= effective_limit || r.len() <= 1) && forall|i: int|
                0 <= i < r.len() ==> shows_path(
                    #[trigger] r[i],
                    list[all[i]],
                    include_explanation,
                    wording,
                )
        }),
        list.len() > 0 && list[0].state is Some ==> r.len() > 0 && shows_path(
            r[0],
            list[0],
            include_explanation,
            wording,
        ),
{
    let wanted = |p: int|
        list[p].state is Some && forall|m: int|
            0 <= m < p ==> (#[trigger] list[m]).key@ != list[p].key@;
    let all = present_rows(list, list.len() as int);
    lemma_present_rows(list, list.len() as int);
    assert(places::picks_all(all, list.len() as int, wanted));
    let rows = ordering::first(all, collect::at_least_one(effective_limit));
    assert forall|i: int| 0 <= i < r.len() implies shows_path(
        #[trigger] r[i],
        list[all[i]],
        include_explanation,
        wording,
    ) by {
        assert(rows[i] == all[i]);
    }
    if list.len() > 0 && list[0].state is Some {
        assert(wanted(0));
        places::lemma_first_is_picked_first(all, list.len() as int, wanted);
        assert(rows[0] == 0);
    }
}

/// Of the outcomes those that are there are kept, in their order.
pub proof fn lemma_present_outcomes(outcomes: Seq<Option<ScoreBreakdown>>, n: int)
    requires
        0 <= n <= outcomes.len(),
    ensures
        ({
            let wanted = |p: int| outcomes[p] is Some;
            exists|all: Seq<int>| #[trigger]
                places::picks_all(all, n, wanted) && present_outcomes(outcomes, n) == Seq::new(
                    all.len(),
                    |i: int| outcomes[all[i]]->0,
                )
        }),
    decreases n,
{
    let wanted = |p: int| outcomes[p] is Some;
    if n > 0 {
        lemma_present_outcomes(outcomes, n - 1);
        let all = choose|all: Seq<int>| #[trigger]
            places::picks_all(all, n - 1, wanted) && present_outcomes(outcomes, n - 1) == Seq::new(
                all.len(),
                |i: int| outcomes[all[i]]->0,
            );
        places::lemma_pick_one_more(all, n - 1, wanted);
        let next = if wanted(n - 1) {
            all.push(n - 1)
        } else {
            all
        };
        assert(places::picks_all(next, n, wanted));
        assert(present_outcomes(outcomes, n) =~= Seq::new(next.len(), |i: int| outcomes[next[i]]->0));
    } else {
        let all = Seq::<int>::empty();
        assert(places::picks_all(all, n, wanted));
        assert(present_outcomes(outcomes, n) =~= Seq::new(all.len(), |i: int| outcomes[all[i]]->0));
    }
}

/// A path is shown by its name, and by a word of its own only where it has none.
pub proof fn lemma_names_of_paths(path: Seq<char>)
    ensures
        winpath::file_name(path) matches Some(name) ==> (text::trimmed(name).len() > 0
            ==> display_name(path) == name),
        winpath::file_name(path) is None ==> display_name(path) == "Shortcut"@,
        display_name(path).len() > 0,
{
    reveal_strlit("Shortcut");
    if let Some(name) = winpath::file_name(path) {
        if text::trimmed(name).len() > 0 && name.len() == 0 {
            assert(text::trimmed(name).len() <= name.len()) by {
                text::lemma_trimming_takes_white_space(name);
            }
        }
    }
}

} // verus!
