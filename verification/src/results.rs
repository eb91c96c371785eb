//! Search results, candidates for results, and lists of them.

use crate::breakdown;
use crate::explanation;
use crate::explanation::ScoreExplanation;
use crate::ordering;
use crate::ordering::{RankKey, Ranked};
use crate::scoring::PreparedQuery;
use crate::text;
use crate::types::{
    HeuristicScoreComponents, LaunchItem, ResultRankingKind, ScoringConfig, SearchQuerySpec,
};
use crate::wording::Wording;
use vstd::prelude::*;

verus! {

// ---------------------------------------------------------------------------
// Results
// ---------------------------------------------------------------------------

/// What a result launches: a path, or the action of a plugin by its name.
#[derive(Debug, PartialEq, Eq)]
pub enum LaunchTarget {
    Path(String),
    Plugin(String),
}

/// A line of the result list.
#[derive(Debug, PartialEq, Eq)]
pub struct SearchResult {
    pub title: String,
    pub subtitle: String,
    pub target: LaunchTarget,
    pub is_dir: bool,
    pub from_history: bool,
    pub from_query_launch_rule: bool,
    pub ranking_kind: ResultRankingKind,
    pub explanation: Option<ScoreExplanation>,
    pub display_score: i32,
    pub score_detail: String,
    pub score: i32,
}

/// Two optional explanations that say the same.
pub open spec fn same_optional_explanation(
    a: Option<ScoreExplanation>,
    b: Option<ScoreExplanation>,
) -> bool {
    match (a, b) {
        (Some(x), Some(y)) => explanation::same_explanation(x, y),
        (None, None) => true,
        _ => false,
    }
}

/// Two results that show and launch the same.
pub open spec fn same_result(a: SearchResult, b: SearchResult) -> bool {
    &&& a.title@ == b.title@
    &&& a.subtitle@ == b.subtitle@
    &&& a.target == b.target
    &&& a.is_dir == b.is_dir
    &&& a.from_history == b.from_history
    &&& a.from_query_launch_rule == b.from_query_launch_rule
    &&& a.ranking_kind == b.ranking_kind
    &&& same_optional_explanation(a.explanation, b.explanation)
    &&& a.display_score == b.display_score
    &&& a.score_detail@ == b.score_detail@
    &&& a.score == b.score
}

/// Two lists of results that show and launch the same.
pub open spec fn same_results(a: Seq<SearchResult>, b: Seq<SearchResult>) -> bool {
    a.len() == b.len() && forall|i: int| 0 <= i < a.len() ==> same_result(#[trigger] a[i], b[i])
}

impl LaunchTarget {
    /// A copy of the target.
    pub fn copy(&self) -> (r: LaunchTarget)
        ensures
            r == *self,
    {
        match self {
            LaunchTarget::Path(path) => LaunchTarget::Path(path.clone()),
            LaunchTarget::Plugin(name) => LaunchTarget::Plugin(name.clone()),
        }
    }
}

impl SearchResult {
    /// Whether the result comes from a plugin.
    pub fn is_alias_result(&self) -> (r: bool)
        ensures
            r == (self.target is Plugin),
    {
        match &self.target {
            LaunchTarget::Path(_) => false,
            LaunchTarget::Plugin(_) => true,
        }
    }

    /// A copy of the result.
    pub fn copy(&self) -> (r: SearchResult)
        ensures
            same_result(r, *self),
    {
        SearchResult {
            title: self.title.clone(),
            subtitle: self.subtitle.clone(),
            target: self.target.copy(),
            is_dir: self.is_dir,
            from_history: self.from_history,
            from_query_launch_rule: self.from_query_launch_rule,
            ranking_kind: self.ranking_kind,
            explanation: match &self.explanation {
                Some(e) => Some(e.copy()),
                None => None,
            },
            display_score: self.display_score,
            score_detail: self.score_detail.clone(),
            score: self.score,
        }
    }
}

/// The key of a kind, a score, a title and a subtitle.
pub open spec fn key_of(kind: ResultRankingKind, score: i32, title: Seq<char>, subtitle: Seq<char>) -> RankKey {
    RankKey {
        priority: ordering::priority_of(kind),
        score: score as int,
        title: text::unicode_lowercase(title),
        subtitle: text::unicode_lowercase(subtitle),
        sequence: 0,
    }
}

impl Ranked for SearchResult {
    open spec fn rank_key(&self) -> RankKey {
        key_of(self.ranking_kind, self.score, self.title@, self.subtitle@)
    }

    fn outranks(&self, other: &SearchResult) -> (r: bool) {
        ordering::rank_less(
            (
                ordering::ranking_priority(self.ranking_kind),
                self.score,
                self.title.as_str(),
                self.subtitle.as_str(),
                0,
            ),
            (
                ordering::ranking_priority(other.ranking_kind),
                other.score,
                other.title.as_str(),
                other.subtitle.as_str(),
                0,
            ),
        )
    }
}

// ---------------------------------------------------------------------------
// Candidates
// ---------------------------------------------------------------------------

/// What a candidate will be shown as.
#[derive(Debug, PartialEq, Eq)]
pub enum RankedCandidatePayload {
    Heuristic { item: LaunchItem, components: HeuristicScoreComponents, from_history: bool },
    Prebuilt(SearchResult),
}

/// A candidate for the result list.
#[derive(Debug, PartialEq, Eq)]
pub struct RankedCandidate {
    pub payload: RankedCandidatePayload,
    pub ranking_kind: ResultRankingKind,
    pub display_score: i32,
    pub score: i32,
}

impl RankedCandidate {
    /// The title of the candidate.
    pub open spec fn title_text(&self) -> Seq<char> {
        match self.payload {
            RankedCandidatePayload::Heuristic { item, .. } => item.title@,
            RankedCandidatePayload::Prebuilt(result) => result.title@,
        }
    }

    /// The subtitle of the candidate.
    pub open spec fn subtitle_text(&self) -> Seq<char> {
        match self.payload {
            RankedCandidatePayload::Heuristic { item, .. } => item.subtitle@,
            RankedCandidatePayload::Prebuilt(result) => result.subtitle@,
        }
    }

    /// The title of the candidate.
    pub fn title(&self) -> (r: &str)
        ensures
            r@ == self.title_text(),
    {
        match &self.payload {
            RankedCandidatePayload::Heuristic { item, .. } => item.title.as_str(),
            RankedCandidatePayload::Prebuilt(result) => result.title.as_str(),
        }
    }

    /// The subtitle of the candidate.
    pub fn subtitle(&self) -> (r: &str)
        ensures
            r@ == self.subtitle_text(),
    {
        match &self.payload {
            RankedCandidatePayload::Heuristic { item, .. } => item.subtitle.as_str(),
            RankedCandidatePayload::Prebuilt(result) => result.subtitle.as_str(),
        }
    }
}

impl Ranked for RankedCandidate {
    open spec fn rank_key(&self) -> RankKey {
        key_of(self.ranking_kind, self.score, self.title_text(), self.subtitle_text())
    }

    fn outranks(&self, other: &RankedCandidate) -> (r: bool) {
        ordering::rank_less(
            (
                ordering::ranking_priority(self.ranking_kind),
                self.score,
                self.title(),
                self.subtitle(),
                0,
            ),
            (
                ordering::ranking_priority(other.ranking_kind),
                other.score,
                other.title(),
                other.subtitle(),
                0,
            ),
        )
    }
}

/// A candidate that is a result already.
pub fn ranked_candidate_from_prebuilt(result: SearchResult) -> (r: RankedCandidate)
    ensures
        r.ranking_kind == result.ranking_kind,
        r.display_score == result.display_score,
        r.score == result.score,
        r.payload == RankedCandidatePayload::Prebuilt(result),
{
    RankedCandidate {
        ranking_kind: result.ranking_kind,
        display_score: result.display_score,
        score: result.score,
        payload: RankedCandidatePayload::Prebuilt(result),
    }
}

/// The candidate that an item and its score make.
pub open spec fn heuristic_candidate(
    item: LaunchItem,
    components: HeuristicScoreComponents,
    from_history: bool,
) -> RankedCandidate {
    RankedCandidate {
        payload: RankedCandidatePayload::Heuristic { item, components, from_history },
        ranking_kind: ResultRankingKind::Heuristic,
        display_score: components.final_score,
        score: components.final_score,
    }
}

/// The candidate that an item and its score make.
pub fn ranked_heuristic_candidate(
    item: LaunchItem,
    components: HeuristicScoreComponents,
    from_history: bool,
) -> (r: RankedCandidate)
    ensures
        r == heuristic_candidate(item, components, from_history),
{
    RankedCandidate {
        payload: RankedCandidatePayload::Heuristic { item, components, from_history },
        ranking_kind: ResultRankingKind::Heuristic,
        display_score: components.final_score,
        score: components.final_score,
    }
}

/// A result that an item and its score make.
pub open spec fn shows_item(
    r: SearchResult,
    item: LaunchItem,
    components: HeuristicScoreComponents,
    from_history: bool,
    kind: ResultRankingKind,
    display_score: i32,
    score: i32,
    include_score_detail: bool,
) -> bool {
    &&& r.title@ == item.title@
    &&& r.subtitle@ == item.subtitle@
    &&& r.target == LaunchTarget::Path(item.path)
    &&& r.is_dir == item.is_dir
    &&& r.from_history == from_history
    &&& !r.from_query_launch_rule
    &&& r.ranking_kind == kind
    &&& r.display_score == display_score
    &&& r.score == score
    &&& r.score_detail@ == (if include_score_detail {
        breakdown::detail_text(components)
    } else {
        ""@
    })
}

/// The explanation of a result is that of the parts of its score.
pub open spec fn explains_item(
    e: Option<ScoreExplanation>,
    item: LaunchItem,
    spec: SearchQuerySpec,
    raw_history: Option<Seq<char>>,
    components: HeuristicScoreComponents,
    scoring: ScoringConfig,
    include_explanation: bool,
    wording: Wording,
) -> bool {
    if include_explanation {
        e matches Some(found) && found.ranking_kind == ResultRankingKind::Heuristic
            && found.query@ == spec.raw@ && found.item_path@ == item.path@ && found.search_root@ == (
        match item.search_root {
            Some(root) => root@,
            None => ""@,
        }) && found.relative_depth == item.relative_depth && found.final_score
            == components.final_score && found.summary@ == explanation::heuristic_summary(wording)
            && explanation::rows_of(found.rows@)
            == explanation::heuristic_rows(item, spec, raw_history, components, scoring, wording)
    } else {
        e is None
    }
}

fn result_of_item(
    item: &LaunchItem,
    components: &HeuristicScoreComponents,
    from_history: bool,
    kind: ResultRankingKind,
    display_score: i32,
    score: i32,
    spec: &SearchQuerySpec,
    raw_history: &Option<String>,
    scoring: &ScoringConfig,
    include_score_detail: bool,
    include_explanation: bool,
    wording: &Wording,
) -> (r: SearchResult)
    requires
        components.path_penalty > i32::MIN,
    ensures
        shows_item(
            r,
            *item,
            *components,
            from_history,
            kind,
            display_score,
            score,
            include_score_detail,
        ),
        explains_item(
            r.explanation,
            *item,
            *spec,
            text::optional(*raw_history),
            *components,
            *scoring,
            include_explanation,
            *wording,
        ),
{
    let explanation = if include_explanation {
        Some(
            explanation::heuristic_score_explanation(
                item,
                spec,
                raw_history,
                scoring,
                components,
                wording,
            ),
        )
    } else {
        None
    };
    let score_detail = if include_score_detail {
        breakdown::score_detail_text_from_components(components)
    } else {
        "".to_owned()
    };
    SearchResult {
        title: item.title.clone(),
        subtitle: item.subtitle.clone(),
        target: LaunchTarget::Path(item.path.clone()),
        is_dir: item.is_dir,
        from_history,
        from_query_launch_rule: false,
        ranking_kind: kind,
        explanation,
        display_score,
        score_detail,
        score,
    }
}

/// The depth penalty of a candidate is a penalty.
pub open spec fn penalty_is_valid(candidate: RankedCandidate) -> bool {
    candidate.payload matches RankedCandidatePayload::Heuristic { components, .. }
        ==> components.path_penalty > i32::MIN
}

/// What a candidate is shown as.
pub open spec fn materializes(
    r: SearchResult,
    candidate: RankedCandidate,
    spec: SearchQuerySpec,
    raw_history: Option<Seq<char>>,
    scoring: ScoringConfig,
    include_score_detail: bool,
    include_explanation: bool,
    wording: Wording,
) -> bool {
    match candidate.payload {
        RankedCandidatePayload::Prebuilt(result) => same_result(r, result),
        RankedCandidatePayload::Heuristic { item, components, from_history } => {
            &&& shows_item(
                r,
                item,
                components,
                from_history,
                candidate.ranking_kind,
                candidate.display_score,
                candidate.score,
                include_score_detail,
            )
            &&& explains_item(
                r.explanation,
                item,
                spec,
                raw_history,
                components,
                scoring,
                include_explanation,
                wording,
            )
        },
    }
}

/// Makes the result that a candidate is shown as.
pub fn materialize_ranked_candidate(
    candidate: &RankedCandidate,
    spec: &SearchQuerySpec,
    raw_history: &Option<String>,
    scoring: &ScoringConfig,
    include_score_detail: bool,
    include_explanation: bool,
    wording: &Wording,
) -> (r: SearchResult)
    requires
        penalty_is_valid(*candidate),
    ensures
        materializes(
            r,
            *candidate,
            *spec,
            text::optional(*raw_history),
            *scoring,
            include_score_detail,
            include_explanation,
            *wording,
        ),
{
    match &candidate.payload {
        RankedCandidatePayload::Prebuilt(result) => result.copy(),
        RankedCandidatePayload::Heuristic { item, components, from_history } => result_of_item(
            item,
            components,
            *from_history,
            candidate.ranking_kind,
            candidate.display_score,
            candidate.score,
            spec,
            raw_history,
            scoring,
            include_score_detail,
            include_explanation,
            wording,
        ),
    }
}

/// A scored item with its result.
#[derive(Debug, PartialEq, Eq)]
pub struct ScoreBreakdown {
    pub result: SearchResult,
    pub components: HeuristicScoreComponents,
}

/// Scores an item for a query and makes its result; nothing where the item
/// does not fit.
pub fn score_breakdown_with_config_and_detail(
    item: &LaunchItem,
    spec: &SearchQuerySpec,
    history_score: i32,
    raw_history: &Option<String>,
    scoring: &ScoringConfig,
    from_history: bool,
    include_score_detail: bool,
    include_explanation: bool,
    wording: &Wording,
) -> (r: Option<ScoreBreakdown>)
    ensures
        match breakdown::components_for(*item, *spec, history_score, *scoring) {
            None => r is None,
            Some(components) => r matches Some(found) && found.components == components
                && materializes(
                found.result,
                heuristic_candidate(*item, components, from_history),
                *spec,
                text::optional(*raw_history),
                *scoring,
                include_score_detail,
                include_explanation,
                *wording,
            ),
        },
{
    let components = match breakdown::score_components_with_config(
        item,
        spec,
        history_score,
        scoring,
    ) {
        Some(components) => components,
        None => {
            return None;
        },
    };
    proof {
        lemma_components_penalty(*item, *spec, history_score, *scoring);
    }
    let result = result_of_item(
        item,
        &components,
        from_history,
        ResultRankingKind::Heuristic,
        components.final_score,
        components.final_score,
        spec,
        raw_history,
        scoring,
        include_score_detail,
        include_explanation,
        wording,
    );
    Some(ScoreBreakdown { result, components })
}

/// Scores an item for a query and makes its result, detail and explanation
/// included.
pub fn score_breakdown_with_config(
    item: &LaunchItem,
    spec: &SearchQuerySpec,
    history_score: i32,
    raw_history: &Option<String>,
    scoring: &ScoringConfig,
    from_history: bool,
    wording: &Wording,
) -> (r: Option<ScoreBreakdown>)
    ensures
        match breakdown::components_for(*item, *spec, history_score, *scoring) {
            None => r is None,
            Some(components) => r matches Some(found) && found.components == components
                && materializes(
                found.result,
                heuristic_candidate(*item, components, from_history),
                *spec,
                text::optional(*raw_history),
                *scoring,
                true,
                true,
                *wording,
            ),
        },
{
    score_breakdown_with_config_and_detail(
        item,
        spec,
        history_score,
        raw_history,
        scoring,
        from_history,
        true,
        true,
        wording,
    )
}

proof fn lemma_components_penalty(
    item: LaunchItem,
    spec: SearchQuerySpec,
    history_score: i32,
    scoring: ScoringConfig,
)
    ensures
        breakdown::components_for(item, spec, history_score, scoring) matches Some(c)
            ==> c.path_penalty >= 0,
{
    let step = crate::arith::max_int(scoring.path_depth_penalty as int, 0);
    assert(item.relative_depth * step >= 0) by (nonlinear_arith)
        requires
            step >= 0,
    ;
}

// ---------------------------------------------------------------------------
// Bounded lists
// ---------------------------------------------------------------------------

/// Sorts results into order.
pub fn sort_search_results(results: Vec<SearchResult>) -> (r: Vec<SearchResult>)
    ensures
        r@ == ordered_results(results@),
{
    ordering::sort_in_order(results)
}

/// Results in order.
pub open spec fn ordered_results(results: Seq<SearchResult>) -> Seq<SearchResult> {
    ordering::ordered(results)
}

/// Offers a candidate to a bounded list.
pub fn insert_bounded_ranked_candidate(
    results: &mut Vec<RankedCandidate>,
    candidate: RankedCandidate,
    effective_limit: usize,
) -> (r: bool)
    requires
        effective_limit != usize::MAX ==> ordering::in_order(old(results)@),
        effective_limit != usize::MAX ==> old(results)@.len() <= effective_limit || old(results)@.len() <= 1,
    ensures
        final(results)@ == ordering::offered(old(results)@, candidate, effective_limit),
        r == ordering::enters(old(results)@, candidate, effective_limit),
        effective_limit != usize::MAX ==> ordering::in_order(final(results)@),
        effective_limit != usize::MAX ==> final(results)@.len() <= effective_limit || final(results)@.len() <= 1,
{
    ordering::offer(results, candidate, effective_limit)
}

/// Offers a result to a bounded list.
pub fn insert_bounded_search_result(
    results: &mut Vec<SearchResult>,
    candidate: SearchResult,
    effective_limit: usize,
) -> (r: bool)
    requires
        effective_limit != usize::MAX ==> ordering::in_order(old(results)@),
        effective_limit != usize::MAX ==> old(results)@.len() <= effective_limit || old(results)@.len() <= 1,
    ensures
        final(results)@ == ordering::offered(old(results)@, candidate, effective_limit),
        r == ordering::enters(old(results)@, candidate, effective_limit),
        effective_limit != usize::MAX ==> ordering::in_order(final(results)@),
        effective_limit != usize::MAX ==> final(results)@.len() <= effective_limit || final(results)@.len() <= 1,
{
    ordering::offer(results, candidate, effective_limit)
}

/// Brings a list into order and down to a limit. Without a limit it stays as it
/// is.
pub fn normalize_bounded_search_results(results: Vec<SearchResult>, effective_limit: usize) -> (r:
    Vec<SearchResult>)
    ensures
        r@ == (if effective_limit == usize::MAX {
            results@
        } else {
            ordering::first(
                ordering::ordered(results@),
                if effective_limit == 0 {
                    1int
                } else {
                    effective_limit as int
                },
            )
        }),
        effective_limit != usize::MAX ==> ordering::in_order(r@) && (r@.len() <= effective_limit
            || r@.len() <= 1),
        effective_limit == usize::MAX ==> r@ == results@,
{
    if effective_limit == usize::MAX {
        return results;
    }
    proof {
        ordering::lemma_ordered_in_order(results@);
    }
    let mut all = ordering::sort_in_order(results);
    let limit: usize = if effective_limit == 0 {
        1
    } else {
        effective_limit
    };
    let ghost before = all@;
    all.truncate(limit);
    proof {
        if limit < before.len() {
            assert(all@ =~= before.take(limit as int));
        }
    }
    all
}

/// The rank that a result is pruned by: query launch rules above all else, then
/// the score.
pub open spec fn primary_rank(by_rule: bool, score: i32) -> int {
    (if by_rule {
        0x1_0000_0000int
    } else {
        0
    }) + (score - i32::MIN) + 1
}

fn rank_value(by_rule: bool, score: i32) -> (r: u64)
    ensures
        r == primary_rank(by_rule, score),
{
    let shifted: u64 = (score as i64 - i32::MIN as i64) as u64;
    if by_rule {
        0x1_0000_0000 + shifted + 1
    } else {
        shifted + 1
    }
}

/// The rank that a candidate is pruned by.
pub fn primary_ranked_candidate_rank(candidate: &RankedCandidate) -> (r: u64)
    ensures
        r == primary_rank(
            candidate.ranking_kind == ResultRankingKind::QueryLaunchRule,
            candidate.score,
        ),
{
    rank_value(candidate.ranking_kind == ResultRankingKind::QueryLaunchRule, candidate.score)
}

/// The rank that a result is pruned by.
pub fn primary_search_rank(result: &SearchResult) -> (r: u64)
    ensures
        r == primary_rank(result.from_query_launch_rule, result.score),
{
    rank_value(result.from_query_launch_rule, result.score)
}

/// The rank of a heuristic score.
pub fn heuristic_primary_rank(score: i32) -> (r: u64)
    ensures
        r == primary_rank(false, score),
{
    rank_value(false, score)
}

/// A list of bounded length is full.
pub open spec fn is_full(len: nat, effective_limit: usize) -> bool {
    effective_limit != usize::MAX && len > 0 && len >= effective_limit
}

/// The rank below which no candidate enters a full list; zero where the list
/// takes anything.
pub fn bounded_ranked_threshold(results: &Vec<RankedCandidate>, effective_limit: usize) -> (r: u64)
    ensures
        r == threshold_of(results@, effective_limit),
{
    if effective_limit == usize::MAX || results.len() == 0 || results.len() < effective_limit {
        return 0;
    }
    primary_ranked_candidate_rank(&results[results.len() - 1])
}

/// The rank below which no candidate enters a full list.
pub open spec fn threshold_of(results: Seq<RankedCandidate>, effective_limit: usize) -> int {
    if is_full(results.len(), effective_limit) {
        primary_rank(
            results.last().ranking_kind == ResultRankingKind::QueryLaunchRule,
            results.last().score,
        )
    } else {
        0
    }
}

/// The rank below which no result enters a full list; zero where the list takes
/// anything.
pub fn bounded_search_threshold(results: &Vec<SearchResult>, effective_limit: usize) -> (r: u64)
    ensures
        r == (if is_full(results@.len(), effective_limit) {
            primary_rank(results@.last().from_query_launch_rule, results@.last().score)
        } else {
            0
        }),
{
    if effective_limit == usize::MAX || results.len() == 0 || results.len() < effective_limit {
        return 0;
    }
    primary_search_rank(&results[results.len() - 1])
}

/// An item with the given bound cannot enter a list with the given threshold.
pub open spec fn is_hopeless(upper_bound: i32, threshold: int) -> bool {
    threshold != 0 && primary_rank(false, upper_bound) < threshold
}

/// Whether an item with the given bound need not be scored.
pub fn should_branch_prune(upper_bound: i32, threshold: u64) -> (r: bool)
    ensures
        r == is_hopeless(upper_bound, threshold as int),
{
    threshold != 0 && heuristic_primary_rank(upper_bound) < threshold
}

/// An item whose bound equals the threshold is scored.
pub proof fn lemma_equal_bound_is_scored(score: i32)
    ensures
        !is_hopeless(score, primary_rank(false, score)),
{
}

/// Pruning loses nothing: a hopeless item would not have entered the list.
pub proof fn lemma_pruned_never_enters(
    results: Seq<RankedCandidate>,
    candidate: RankedCandidate,
    upper_bound: i32,
    effective_limit: usize,
)
    requires
        candidate.ranking_kind == ResultRankingKind::Heuristic,
        candidate.score <= upper_bound,
        is_hopeless(upper_bound, threshold_of(results, effective_limit)),
    ensures
        !ordering::enters(results, candidate, effective_limit),
{
}

/// Pruning by the upper bound of a prepared query loses nothing, as long as the
/// history score keeps to its ceiling.
pub proof fn lemma_pruning_is_safe(
    results: Seq<RankedCandidate>,
    item: LaunchItem,
    query: Seq<char>,
    now: i64,
    text_score: i32,
    prepared: PreparedQuery,
    history_score: i32,
    from_history: bool,
    scoring: ScoringConfig,
    effective_limit: usize,
)
    requires
        prepared.well_formed(),
        history_score <= crate::arith::max_int(scoring.recent_score_ceiling as int, 0),
        is_hopeless(
            breakdown::upper_bound(
                item,
                text_score,
                prepared.positive_pattern_score_ceiling,
                scoring,
            ),
            threshold_of(results, effective_limit),
        ),
    ensures
        !ordering::enters(
            results,
            heuristic_candidate(
                item,
                breakdown::components_of(
                    item,
                    query,
                    now,
                    text_score,
                    breakdown::prepared_pattern_part(prepared, item),
                    history_score,
                    scoring,
                ),
                from_history,
            ),
            effective_limit,
        ),
{
    breakdown::lemma_upper_bound(item, query, now, text_score, prepared, history_score, scoring);
}

/// The results to show while a search is running: of an unlimited list the
/// first `preview` in order, else the whole list. Gives back the list as well,
/// in order where it is unlimited.
pub fn progressive_search_results(
    best: Vec<SearchResult>,
    effective_limit: usize,
    preview: usize,
) -> (r: (Vec<SearchResult>, Vec<SearchResult>))
    ensures
        r.0@ == (if effective_limit == usize::MAX {
            ordering::ordered(best@)
        } else {
            best@
        }),
        same_results(
            r.1@,
            if effective_limit == usize::MAX {
                ordering::first(
                    r.0@,
                    if preview == 0 {
                        1int
                    } else {
                        preview as int
                    },
                )
            } else {
                r.0@
            },
        ),
{
    let (list, count): (Vec<SearchResult>, usize) = if effective_limit == usize::MAX {
        (
            ordering::sort_in_order(best),
            if preview == 0 {
                1
            } else {
                preview
            },
        )
    } else {
        let n: usize = best.len();
        (best, n)
    };
    let shown: usize = if count < list.len() {
        count
    } else {
        list.len()
    };
    let mut out: Vec<SearchResult> = Vec::new();
    let mut i: usize = 0;
    while i < shown
        invariant
            i <= shown <= list.len(),
            out@.len() == i,
            forall|k: int| 0 <= k < i ==> same_result(#[trigger] out@[k], list@[k]),
        decreases shown - i,
    {
        out.push(list[i].copy());
        i += 1;
    }
    (list, out)
}

// ---------------------------------------------------------------------------
// Targets
// ---------------------------------------------------------------------------

/// The path that a result launches; none where a plugin does.
pub open spec fn target_path(result: SearchResult) -> Option<Seq<char>> {
    match result.target {
        LaunchTarget::Path(path) => Some(path@),
        LaunchTarget::Plugin(_) => None,
    }
}

/// The path that a result launches.
pub fn result_target_path(result: &SearchResult) -> (r: Option<String>)
    ensures
        match target_path(*result) {
            Some(path) => r matches Some(found) && found@ == path,
            None => r is None,
        },
{
    match &result.target {
        LaunchTarget::Path(path) => Some(path.clone()),
        LaunchTarget::Plugin(_) => None,
    }
}

// ---------------------------------------------------------------------------
// Ranks as numbers
// ---------------------------------------------------------------------------

/// The ranks of results are in the order of their scores, those by a rule are above all others,
/// and none is nothing: nothing stands for a list that is not full.
pub proof fn lemma_ranks_in_order(by_rule: bool, other_by_rule: bool, a: i32, b: i32)
    ensures
        primary_rank(by_rule, a) < primary_rank(by_rule, b) <==> a < b,
        primary_rank(false, a) < primary_rank(true, b),
        0 < primary_rank(by_rule, a) <= u64::MAX,
        primary_rank(by_rule, a) == primary_rank(other_by_rule, b) <==> by_rule == other_by_rule
            && a == b,
{
}

/// A list keeps others out only where it is full: what a result has to reach is the rank of its
/// last.
pub proof fn lemma_full_lists_keep_out(results: Seq<RankedCandidate>, limit: usize, bound: i32)
    ensures
        limit == usize::MAX ==> threshold_of(results, limit) == 0,
        results.len() < limit ==> threshold_of(results, limit) == 0,
        results.len() == 0 ==> threshold_of(results, limit) == 0,
        is_hopeless(bound, threshold_of(results, limit)) ==> results.len() >= limit
            && results.len() > 0 && (results.last().ranking_kind
            == ResultRankingKind::QueryLaunchRule || bound < results.last().score),
        limit != usize::MAX && results.len() > 0 && results.len() >= limit && bound
            < results.last().score ==> is_hopeless(bound, threshold_of(results, limit)),
{
}

/// A row shows the item that it stands for: its title, where it lies, its own score, and it
/// leads to the path of the item.
pub proof fn lemma_rows_show_their_items(
    r: SearchResult,
    candidate: RankedCandidate,
    spec: SearchQuerySpec,
    raw_history: Option<Seq<char>>,
    scoring: ScoringConfig,
    include_score_detail: bool,
    include_explanation: bool,
    wording: Wording,
)
    requires
        materializes(
            r,
            candidate,
            spec,
            raw_history,
            scoring,
            include_score_detail,
            include_explanation,
            wording,
        ),
    ensures
        r.title@ == candidate.title_text(),
        r.subtitle@ == candidate.subtitle_text(),
        candidate.payload is Heuristic ==> r.score == candidate.score && r.display_score
            == candidate.display_score && r.ranking_kind == candidate.ranking_kind,
        candidate.payload matches RankedCandidatePayload::Heuristic { item, from_history, .. }
            ==> target_path(r) == Some(item.path@) && r.is_dir == item.is_dir && r.from_history
            == from_history && (r.explanation is Some <==> include_explanation) && (
        !include_score_detail ==> r.score_detail@.len() == 0),
        candidate.payload matches RankedCandidatePayload::Prebuilt(own) ==> r.target == own.target
            && r.score == own.score && r.ranking_kind == own.ranking_kind && r.is_dir == own.is_dir
            && r.from_query_launch_rule == own.from_query_launch_rule,
{
    reveal_strlit("");
}

/// Results are ordered by their kind, then by their score, then by their titles without regard
/// to case.
pub proof fn lemma_what_results_rank_by(a: SearchResult, b: SearchResult)
    ensures
        a.rank_key().priority == ordering::priority_of(a.ranking_kind),
        a.rank_key().score == a.score,
        a.rank_key().title == b.rank_key().title <==> text::unicode_lowercase(a.title@)
            == text::unicode_lowercase(b.title@),
        a.rank_key().subtitle == b.rank_key().subtitle <==> text::unicode_lowercase(a.subtitle@)
            == text::unicode_lowercase(b.subtitle@),
{
}

} // verus!
