//! The heuristic score of an item, put together from its parts, and the bound
//! that spares the scoring of hopeless items.

use crate::arith;
use crate::scoring;
use crate::scoring::PreparedQuery;
use crate::text;
use crate::types::{HeuristicScoreComponents, LaunchItem, ScoringConfig, SearchQuerySpec};
use vstd::prelude::*;

verus! {

// ---------------------------------------------------------------------------
// Folders, depth and age
// ---------------------------------------------------------------------------

/// The score of a folder as a share of the score that a file would have.
pub open spec fn folder_share(file_score: int, percent: int) -> i32 {
    arith::sat(arith::div_toward_zero(file_score * arith::max_int(percent, 0), 100))
}

/// What being a folder adds to the file score.
pub open spec fn folder_part(is_dir: bool, file_score: i32, scoring: ScoringConfig) -> i32 {
    if is_dir {
        arith::sat(
            folder_share(file_score as int, scoring.folder_score_as_file_score_percent as int)
                - file_score,
        )
    } else {
        0
    }
}

/// What the depth below the search folder takes away.
pub open spec fn depth_penalty(relative_depth: int, scoring: ScoringConfig) -> int {
    arith::min_int(
        relative_depth * arith::max_int(scoring.path_depth_penalty as int, 0),
        i32::MAX as int,
    )
}

/// The number of full days between two times.
pub open spec fn age_in_days(modified_at: i64, now: i64) -> int {
    arith::min_int(now - modified_at, i64::MAX as int) / 86_400
}

/// The bonus for a recent modification: all of it on the first day, half of it
/// below thirty days, a quarter below a year.
pub open spec fn recency_part(modified_at: Option<i64>, now: i64, scoring: ScoringConfig) -> int {
    let bonus = scoring.recency_date_bonus as int;
    if !scoring.recency_date_enabled || bonus <= 0 {
        0
    } else {
        match modified_at {
            None => 0,
            Some(time) => if time > now || age_in_days(time, now) == 0 {
                bonus
            } else if age_in_days(time, now) < 30 {
                bonus / 2
            } else if age_in_days(time, now) < 365 {
                bonus / 4
            } else {
                0
            },
        }
    }
}

/// What being a folder adds to the file score.
pub fn folder_score_adjustment(item: &LaunchItem, file_score: i32, scoring: &ScoringConfig) -> (r:
    i32)
    ensures
        r == folder_part(item.is_dir, file_score, *scoring),
{
    if !item.is_dir {
        return 0;
    }
    let percent: i32 = arith::max_i32(scoring.folder_score_as_file_score_percent, 0);
    proof {
        assert(-0x4000_0000_0000_0000 <= file_score * percent <= 0x4000_0000_0000_0000)
            by (nonlinear_arith)
            requires
                -0x8000_0000 <= file_score <= 0x7fff_ffff,
                0 <= percent <= 0x7fff_ffff,
        ;
    }
    let product: i64 = (file_score as i64) * (percent as i64);
    let share: i64 = if product >= 0 {
        product / 100
    } else {
        -((-product) / 100)
    };
    arith::sat_sub(arith::clamp_i64(share), file_score)
}

/// What the depth below the search folder takes away.
pub fn path_penalty(item: &LaunchItem, scoring: &ScoringConfig) -> (r: i32)
    ensures
        r == depth_penalty(item.relative_depth as int, *scoring),
        r >= 0,
{
    let step: i32 = arith::max_i32(scoring.path_depth_penalty, 0);
    let depth: u64 = item.relative_depth as u64;
    proof {
        assert(0 <= depth * step <= 0xffff_ffff_ffff_ffff * 0x7fff_ffff) by (nonlinear_arith)
            requires
                0 <= depth <= 0xffff_ffff_ffff_ffff,
                0 <= step <= 0x7fff_ffff,
        ;
    }
    let product: u128 = (depth as u128) * (step as u128);
    if product > i32::MAX as u128 {
        i32::MAX
    } else {
        product as i32
    }
}

/// The bonus for a recent modification.
pub fn recency_date_score_at(
    modified_at_unix_seconds: Option<i64>,
    now_unix_seconds: i64,
    scoring: &ScoringConfig,
) -> (r: i32)
    ensures
        r == recency_part(modified_at_unix_seconds, now_unix_seconds, *scoring),
{
    if !scoring.recency_date_enabled || scoring.recency_date_bonus <= 0 {
        return 0;
    }
    let modified: i64 = match modified_at_unix_seconds {
        Some(time) => time,
        None => {
            return 0;
        },
    };
    if modified > now_unix_seconds {
        return scoring.recency_date_bonus;
    }
    let difference: i128 = now_unix_seconds as i128 - modified as i128;
    let age: u64 = if difference > i64::MAX as i128 {
        i64::MAX as u64
    } else {
        difference as u64
    };
    let days: u64 = age / 86_400;
    if days == 0 {
        scoring.recency_date_bonus
    } else if days < 30 {
        scoring.recency_date_bonus / 2
    } else if days < 365 {
        scoring.recency_date_bonus / 4
    } else {
        0
    }
}

/// Seconds since 1970 of a time at a distance from that moment, rounded down.
pub open spec fn signed_seconds(after: bool, seconds: u64, subsec_nanos: u32) -> int {
    if after {
        seconds as int
    } else if subsec_nanos == 0 {
        -(seconds as int)
    } else {
        -(seconds as int) - 1
    }
}

/// Seconds since 1970, from the distance of a time to that moment; nothing
/// where the distance has no signed form of 64 bits.
pub fn unix_seconds_from_system_time(after: bool, seconds: u64, subsec_nanos: u32) -> (r: Option<
    i64,
>)
    ensures
        r == (if seconds <= i64::MAX {
            Some(signed_seconds(after, seconds, subsec_nanos) as i64)
        } else {
            None::<i64>
        }),
        seconds <= i64::MAX ==> i64::MIN <= signed_seconds(after, seconds, subsec_nanos)
            <= i64::MAX,
{
    if seconds > i64::MAX as u64 {
        return None;
    }
    let value: i64 = seconds as i64;
    if after {
        Some(value)
    } else if subsec_nanos == 0 {
        Some(-value)
    } else {
        Some(-value - 1)
    }
}

// ---------------------------------------------------------------------------
// The sum
// ---------------------------------------------------------------------------

/// The score of an item before its kind counts.
pub open spec fn file_sum(
    text_score: i32,
    path_score: i32,
    index_score: i32,
    pattern_score: i32,
    history_score: i32,
    recency_score: i32,
    penalty: i32,
) -> i32 {
    let s1 = arith::sat(text_score + path_score);
    let s2 = arith::sat(s1 + index_score);
    let s3 = arith::sat(s2 + pattern_score);
    let s4 = arith::sat(s3 + history_score);
    let s5 = arith::sat(s4 + recency_score);
    arith::sat(s5 - penalty)
}

/// The score of an item from its file score.
pub open spec fn kind_sum(is_dir: bool, file_score: i32, scoring: ScoringConfig) -> i32 {
    arith::sat(file_score + folder_part(is_dir, file_score, scoring))
}

/// The parts of an item's score, from its text, pattern and history parts.
pub open spec fn components_of(
    item: LaunchItem,
    query: Seq<char>,
    now: i64,
    text_score: i32,
    pattern_score: i32,
    history_score: i32,
    scoring: ScoringConfig,
) -> HeuristicScoreComponents {
    let path_score = scoring::parent_score(
        query,
        item.folded_title@,
        item.folded_parent@,
        scoring,
    );
    let recency_score = recency_part(item.modified_at_unix_seconds, now, scoring) as i32;
    let penalty = depth_penalty(item.relative_depth as int, scoring) as i32;
    let file = file_sum(
        text_score,
        path_score,
        item.index_score,
        pattern_score,
        history_score,
        recency_score,
        penalty,
    );
    HeuristicScoreComponents {
        text_score,
        path_score,
        index_score: item.index_score,
        pattern_score,
        history_score,
        recency_score,
        folder_score: folder_part(item.is_dir, file, scoring),
        path_penalty: penalty,
        final_score: kind_sum(item.is_dir, file, scoring),
    }
}

fn put_together(
    item: &LaunchItem,
    query: &str,
    now: i64,
    text_score: i32,
    pattern_score: i32,
    history_score: i32,
    scoring: &ScoringConfig,
) -> (r: HeuristicScoreComponents)
    ensures
        r == components_of(
            *item,
            query@,
            now,
            text_score,
            pattern_score,
            history_score,
            *scoring,
        ),
{
    let path_score: i32 = scoring::score_item_path_with_config(query, item, scoring);
    let recency_score: i32 = recency_date_score_at(item.modified_at_unix_seconds, now, scoring);
    let penalty: i32 = path_penalty(item, scoring);
    let s1: i32 = arith::sat_add(text_score, path_score);
    let s2: i32 = arith::sat_add(s1, item.index_score);
    let s3: i32 = arith::sat_add(s2, pattern_score);
    let s4: i32 = arith::sat_add(s3, history_score);
    let s5: i32 = arith::sat_add(s4, recency_score);
    let file: i32 = arith::sat_sub(s5, penalty);
    let folder_score: i32 = folder_score_adjustment(item, file, scoring);
    HeuristicScoreComponents {
        text_score,
        path_score,
        index_score: item.index_score,
        pattern_score,
        history_score,
        recency_score,
        folder_score,
        path_penalty: penalty,
        final_score: arith::sat_add(file, folder_score),
    }
}

/// The pattern score that a prepared query gives an item.
pub open spec fn prepared_pattern_part(prepared: PreparedQuery, item: LaunchItem) -> i32 {
    arith::sat(
        scoring::compiled_total(
            scoring::compiled_models(prepared.compiled_pattern_rules@),
            text::fold(item.path@),
            item.folded_title@,
        ) as int,
    )
}

/// The parts of an item's score for a prepared query and a text score that is
/// known already.
pub fn score_components_with_prepared_query(
    item: &LaunchItem,
    spec: &SearchQuerySpec,
    prepared_query: &PreparedQuery,
    text_score: i32,
    history_score: i32,
    scoring: &ScoringConfig,
) -> (r: HeuristicScoreComponents)
    requires
        prepared_query.well_formed(),
    ensures
        r == components_of(
            *item,
            prepared_query.folded_search_text@,
            spec.scoring_time_unix_seconds,
            text_score,
            prepared_pattern_part(*prepared_query, *item),
            history_score,
            *scoring,
        ),
{
    let pattern_score: i32 = prepared_query.pattern_score(
        item.path.as_str(),
        item.folded_title.as_str(),
    );
    put_together(
        item,
        prepared_query.folded_search_text(),
        spec.scoring_time_unix_seconds,
        text_score,
        pattern_score,
        history_score,
        scoring,
    )
}

/// The parts of an item's score for a query, or nothing where its name does not
/// fit the query.
pub open spec fn components_for(
    item: LaunchItem,
    spec: SearchQuerySpec,
    history_score: i32,
    scoring: ScoringConfig,
) -> Option<HeuristicScoreComponents> {
    let query = spec.folded_search_text@;
    let fit = if query.len() == 0 {
        Some(1i32)
    } else {
        scoring::name_score(
            query,
            item.folded_title@,
            item.folded_stem@,
            item.folded_parent@,
            item.is_dir,
            scoring,
        )
    };
    match fit {
        None => None,
        Some(text_score) => Some(
            components_of(
                item,
                query,
                spec.scoring_time_unix_seconds,
                text_score,
                scoring::pattern_total(
                    scoring.pattern_rules@,
                    text::texts(spec.scoring_modifiers@),
                    item.path@,
                ),
                history_score,
                scoring,
            ),
        ),
    }
}

/// The parts of an item's score for a query.
pub fn score_components_with_config(
    item: &LaunchItem,
    spec: &SearchQuerySpec,
    history_score: i32,
    scoring: &ScoringConfig,
) -> (r: Option<HeuristicScoreComponents>)
    ensures
        r == components_for(*item, *spec, history_score, *scoring),
{
    let query = spec.folded_search_text.as_str();
    let text_score: i32 = if query.is_empty() {
        1
    } else {
        match scoring::score_item_text_with_config(query, item, scoring) {
            Some(score) => score,
            None => {
                return None;
            },
        }
    };
    let pattern_score: i32 = scoring::pattern_score_with_config_and_modifiers(
        item.path.as_str(),
        scoring,
        spec.scoring_modifiers.as_slice(),
    );
    Some(
        put_together(
            item,
            query,
            spec.scoring_time_unix_seconds,
            text_score,
            pattern_score,
            history_score,
            scoring,
        ),
    )
}

proof fn lemma_parent_score_trimmed(
    query: Seq<char>,
    title: Seq<char>,
    parent: Seq<char>,
    scoring: ScoringConfig,
)
    ensures
        scoring::parent_score(text::trimmed(query), title, parent, scoring)
            == scoring::parent_score(query, title, parent, scoring),
{
    text::lemma_trimmed_idempotent(query);
    text::lemma_words_trimmed(query);
}

/// Scoring an item through a prepared query gives the parts that scoring it
/// directly gives, for a path without a star whose folded file name is the
/// item's folded title.
pub proof fn lemma_prepared_components(
    item: LaunchItem,
    spec: SearchQuerySpec,
    prepared: PreparedQuery,
    history_score: i32,
    scoring: ScoringConfig,
)
    requires
        prepared.prepares(
            spec.folded_search_text@,
            text::texts(spec.scoring_modifiers@),
            scoring,
        ),
        scoring::folded_file_name(item.path@) == Some(item.folded_title@),
        !text::fold(item.path@).contains('*'),
        !item.folded_title@.contains('*'),
    ensures
        components_for(item, spec, history_score, scoring) == (match scoring::name_score(
            prepared.folded_search_text@,
            item.folded_title@,
            item.folded_stem@,
            item.folded_parent@,
            item.is_dir,
            scoring,
        ) {
            None => None,
            Some(text_score) => Some(
                components_of(
                    item,
                    prepared.folded_search_text@,
                    spec.scoring_time_unix_seconds,
                    text_score,
                    prepared_pattern_part(prepared, item),
                    history_score,
                    scoring,
                ),
            ),
        }),
{
    scoring::lemma_name_score_trimmed(
        spec.folded_search_text@,
        item.folded_title@,
        item.folded_stem@,
        item.folded_parent@,
        item.is_dir,
        scoring,
    );
    lemma_parent_score_trimmed(
        spec.folded_search_text@,
        item.folded_title@,
        item.folded_parent@,
        scoring,
    );
    scoring::lemma_prepared_pattern_score(
        scoring.pattern_rules@,
        text::texts(spec.scoring_modifiers@),
        item.path@,
    );
}

// ---------------------------------------------------------------------------
// The upper bound
// ---------------------------------------------------------------------------

/// The highest score that an item with a known text score can reach.
pub open spec fn upper_bound(
    item: LaunchItem,
    text_score: i32,
    pattern_ceiling: i32,
    scoring: ScoringConfig,
) -> i32 {
    kind_sum(
        item.is_dir,
        file_sum(
            text_score,
            arith::max_int(scoring.explicit_folder_name_match_adjustment as int, 0) as i32,
            item.index_score,
            pattern_ceiling,
            arith::max_int(scoring.recent_score_ceiling as int, 0) as i32,
            if scoring.recency_date_enabled {
                arith::max_int(scoring.recency_date_bonus as int, 0) as i32
            } else {
                0
            },
            depth_penalty(item.relative_depth as int, scoring) as i32,
        ),
        scoring,
    )
}

/// The highest score that an item with a known text score can reach.
pub fn heuristic_score_upper_bound(
    item: &LaunchItem,
    text_score: i32,
    prepared_query: &PreparedQuery,
    scoring: &ScoringConfig,
) -> (r: i32)
    ensures
        r == upper_bound(
            *item,
            text_score,
            prepared_query.positive_pattern_score_ceiling,
            *scoring,
        ),
{
    let path_ceiling: i32 = arith::max_i32(scoring.explicit_folder_name_match_adjustment, 0);
    let history_ceiling: i32 = arith::max_i32(scoring.recent_score_ceiling, 0);
    let recency_ceiling: i32 = if scoring.recency_date_enabled {
        arith::max_i32(scoring.recency_date_bonus, 0)
    } else {
        0
    };
    let s1: i32 = arith::sat_add(text_score, path_ceiling);
    let s2: i32 = arith::sat_add(s1, item.index_score);
    let s3: i32 = arith::sat_add(s2, prepared_query.positive_pattern_score_ceiling());
    let s4: i32 = arith::sat_add(s3, history_ceiling);
    let s5: i32 = arith::sat_add(s4, recency_ceiling);
    let file: i32 = arith::sat_sub(s5, path_penalty(item, scoring));
    arith::sat_add(file, folder_score_adjustment(item, file, scoring))
}

proof fn lemma_share_monotone(a: int, b: int, percent: int)
    requires
        a <= b,
        0 <= percent,
    ensures
        arith::div_toward_zero(a * percent, 100) <= arith::div_toward_zero(b * percent, 100),
{
    assert(a * percent <= b * percent) by (nonlinear_arith)
        requires
            a <= b,
            0 <= percent,
    ;
}

proof fn lemma_share_sign(a: int, percent: int)
    requires
        0 <= percent,
    ensures
        a >= 0 ==> arith::div_toward_zero(a * percent, 100) >= 0,
        a <= 0 ==> arith::div_toward_zero(a * percent, 100) <= 0,
        percent >= 100 && a >= 0 ==> arith::div_toward_zero(a * percent, 100) >= a,
        percent >= 100 && a <= 0 ==> arith::div_toward_zero(a * percent, 100) <= a,
        percent <= 100 && a >= 0 ==> arith::div_toward_zero(a * percent, 100) <= a,
        percent <= 100 && a <= 0 ==> arith::div_toward_zero(a * percent, 100) >= a,
        0 < percent && a <= -100 ==> arith::div_toward_zero(a * percent, 100) < 0,
{
    assert(a >= 0 ==> a * percent >= 0) by (nonlinear_arith)
        requires
            0 <= percent,
    ;
    assert(a <= 0 ==> a * percent <= 0) by (nonlinear_arith)
        requires
            0 <= percent,
    ;
    assert(percent >= 100 && a >= 0 ==> a * percent >= a * 100) by (nonlinear_arith);
    assert(percent >= 100 && a <= 0 ==> a * percent <= a * 100) by (nonlinear_arith);
    assert(percent <= 100 && a >= 0 ==> a * percent <= a * 100) by (nonlinear_arith);
    assert(percent <= 100 && a <= 0 ==> a * percent >= a * 100) by (nonlinear_arith);
    assert(0 < percent && a <= -100 ==> a * percent <= -100) by (nonlinear_arith);
}

/// The score of an item is the share of its file score: of an item that is no
/// folder, the file score itself. The one exception is a folder of the lowest
/// file score of all at a share of nothing, whose score is one below zero.
pub proof fn lemma_kind_sum(is_dir: bool, file_score: i32, scoring: ScoringConfig)
    ensures
        !is_dir ==> kind_sum(is_dir, file_score, scoring) == file_score,
        is_dir ==> kind_sum(is_dir, file_score, scoring) == (if file_score == i32::MIN
            && scoring.folder_score_as_file_score_percent <= 0 {
            -1i32
        } else {
            folder_share(file_score as int, scoring.folder_score_as_file_score_percent as int)
        }),
{
    let percent = arith::max_int(scoring.folder_score_as_file_score_percent as int, 0);
    lemma_share_sign(file_score as int, percent);
    if percent == 0 {
        assert(file_score * percent == 0) by (nonlinear_arith)
            requires
                percent == 0,
        ;
    }
}

proof fn lemma_kind_sum_monotone(is_dir: bool, a: i32, b: i32, scoring: ScoringConfig)
    requires
        a <= b,
    ensures
        kind_sum(is_dir, a, scoring) <= kind_sum(is_dir, b, scoring),
{
    lemma_kind_sum(is_dir, a, scoring);
    lemma_kind_sum(is_dir, b, scoring);
    let percent = arith::max_int(scoring.folder_score_as_file_score_percent as int, 0);
    lemma_share_monotone(a as int, b as int, percent);
    lemma_share_sign(a as int, percent);
    lemma_share_sign(b as int, percent);
    if percent == 0 {
        assert(a * percent == 0 && b * percent == 0) by (nonlinear_arith)
            requires
                percent == 0,
        ;
    }
}

proof fn lemma_file_sum_monotone(
    text_score: i32,
    path: (i32, i32),
    index_score: i32,
    pattern: (i32, i32),
    history: (i32, i32),
    recency: (i32, i32),
    penalty: i32,
)
    requires
        path.0 <= path.1,
        pattern.0 <= pattern.1,
        history.0 <= history.1,
        recency.0 <= recency.1,
    ensures
        file_sum(
            text_score,
            path.0,
            index_score,
            pattern.0,
            history.0,
            recency.0,
            penalty,
        ) <= file_sum(
            text_score,
            path.1,
            index_score,
            pattern.1,
            history.1,
            recency.1,
            penalty,
        ),
{
}

/// No item scores above its upper bound, as long as its history score keeps
/// to the configured ceiling.
pub proof fn lemma_upper_bound(
    item: LaunchItem,
    query: Seq<char>,
    now: i64,
    text_score: i32,
    prepared: PreparedQuery,
    history_score: i32,
    scoring: ScoringConfig,
)
    requires
        prepared.well_formed(),
        history_score <= arith::max_int(scoring.recent_score_ceiling as int, 0),
    ensures
        components_of(
            item,
            query,
            now,
            text_score,
            prepared_pattern_part(prepared, item),
            history_score,
            scoring,
        ).final_score <= upper_bound(
            item,
            text_score,
            prepared.positive_pattern_score_ceiling,
            scoring,
        ),
{
    scoring::lemma_pattern_score_ceiling(
        scoring::compiled_models(prepared.compiled_pattern_rules@),
        text::fold(item.path@),
        item.folded_title@,
    );
    let path_score = scoring::parent_score(query, item.folded_title@, item.folded_parent@, scoring);
    let recency_score = recency_part(item.modified_at_unix_seconds, now, scoring);
    let pattern_score = prepared_pattern_part(prepared, item);
    let penalty = depth_penalty(item.relative_depth as int, scoring) as i32;
    let path_ceiling = arith::max_int(
        scoring.explicit_folder_name_match_adjustment as int,
        0,
    ) as i32;
    let history_ceiling = arith::max_int(scoring.recent_score_ceiling as int, 0) as i32;
    let recency_ceiling = if scoring.recency_date_enabled {
        arith::max_int(scoring.recency_date_bonus as int, 0) as i32
    } else {
        0i32
    };
    assert(0 <= recency_score <= recency_ceiling);
    lemma_file_sum_monotone(
        text_score,
        (path_score, path_ceiling),
        item.index_score,
        (pattern_score, prepared.positive_pattern_score_ceiling),
        (history_score, history_ceiling),
        (recency_score as i32, recency_ceiling),
        penalty,
    );
    let file = file_sum(
        text_score,
        path_score,
        item.index_score,
        pattern_score,
        history_score,
        recency_score as i32,
        penalty,
    );
    let bound = file_sum(
        text_score,
        path_ceiling,
        item.index_score,
        prepared.positive_pattern_score_ceiling,
        history_ceiling,
        recency_ceiling,
        penalty,
    );
    lemma_kind_sum_monotone(item.is_dir, file, bound, scoring);
}

/// The text that lists the parts of a score.
pub open spec fn detail_text(c: HeuristicScoreComponents) -> Seq<char> {
    "text "@ + text::decimal(c.text_score as int) + " + path "@ + text::decimal(c.path_score as int)
        + " + index "@ + text::decimal(c.index_score as int) + " + pattern "@ + text::decimal(
        c.pattern_score as int,
    ) + " + history "@ + text::decimal(c.history_score as int) + " + recency "@ + text::decimal(
        c.recency_score as int,
    ) + " + folder "@ + text::decimal(c.folder_score as int) + " - path_penalty "@ + text::decimal(
        c.path_penalty as int,
    ) + " = "@ + text::decimal(c.final_score as int)
}

fn append_number(out: &mut String, label: &str, value: i32)
    ensures
        final(out)@ == old(out)@ + label@ + text::decimal(value as int),
{
    out.append(label);
    let number = text::decimal_i64(value as i64);
    out.append(number.as_str());
}

/// Lists the parts of a score.
pub fn score_detail_text_from_components(components: &HeuristicScoreComponents) -> (r: String)
    ensures
        r@ == detail_text(*components),
{
    let mut out = "text ".to_owned();
    let number = text::decimal_i64(components.text_score as i64);
    out.append(number.as_str());
    append_number(&mut out, " + path ", components.path_score);
    append_number(&mut out, " + index ", components.index_score);
    append_number(&mut out, " + pattern ", components.pattern_score);
    append_number(&mut out, " + history ", components.history_score);
    append_number(&mut out, " + recency ", components.recency_score);
    append_number(&mut out, " + folder ", components.folder_score);
    append_number(&mut out, " - path_penalty ", components.path_penalty);
    append_number(&mut out, " = ", components.final_score);
    out
}

// ---------------------------------------------------------------------------
// What each part is for
// ---------------------------------------------------------------------------

/// What was changed within a day counts in full, within thirty days by half, within a year by
/// a quarter, and what is older not at all. A time to come counts in full, an unknown one not
/// at all.
pub proof fn lemma_recency_bands(modified_at: i64, now: i64, scoring: ScoringConfig)
    ensures
        recency_part(None, now, scoring) == 0,
        !scoring.recency_date_enabled || scoring.recency_date_bonus <= 0 ==> recency_part(
            Some(modified_at),
            now,
            scoring,
        ) == 0,
        scoring.recency_date_enabled && scoring.recency_date_bonus > 0 ==> {
            let part = recency_part(Some(modified_at), now, scoring);
            let age = now - modified_at;
            &&& age < 24 * 60 * 60 ==> part == scoring.recency_date_bonus
            &&& 24 * 60 * 60 <= age < 30 * 24 * 60 * 60 ==> part == scoring.recency_date_bonus / 2
            &&& 30 * 24 * 60 * 60 <= age < 365 * 24 * 60 * 60 ==> part
                == scoring.recency_date_bonus / 4
            &&& 365 * 24 * 60 * 60 <= age ==> part == 0
        },
{
}

/// What was changed later never counts less.
pub proof fn lemma_later_counts_more(older: i64, newer: i64, now: i64, scoring: ScoringConfig)
    requires
        older <= newer,
    ensures
        recency_part(Some(older), now, scoring) <= recency_part(Some(newer), now, scoring),
{
    lemma_recency_bands(older, now, scoring);
    lemma_recency_bands(newer, now, scoring);
}

/// Every step deeper costs the penalty once more, until it is as large as a number of 32 bits
/// can be; a penalty below zero costs nothing.
pub proof fn lemma_every_step_costs(depth: int, scoring: ScoringConfig)
    requires
        depth >= 0,
    ensures
        depth_penalty(0, scoring) == 0,
        scoring.path_depth_penalty <= 0 ==> depth_penalty(depth, scoring) == 0,
        scoring.path_depth_penalty > 0 && depth_penalty(depth, scoring)
            + scoring.path_depth_penalty <= i32::MAX ==> depth_penalty(depth + 1, scoring)
            == depth_penalty(depth, scoring) + scoring.path_depth_penalty,
        0 <= depth_penalty(depth, scoring) <= depth_penalty(depth + 1, scoring) <= i32::MAX,
{
    let step = arith::max_int(scoring.path_depth_penalty as int, 0);
    assert(0 * step == 0 && depth * step >= 0 && (depth + 1) * step == depth * step + step)
        by (nonlinear_arith)
        requires
            step >= 0,
            depth >= 0,
    ;
    if scoring.path_depth_penalty <= 0 {
        assert(depth * step == 0) by (nonlinear_arith)
            requires
                step == 0,
        ;
    }
}

/// A folder scores its share of what a file would, in percent and cut toward zero: nothing at
/// no percent, and as much as a file at a hundred.
pub proof fn lemma_folders_score_their_share(file_score: i32, scoring: ScoringConfig)
    requires
        file_score > i32::MIN,
    ensures
        kind_sum(false, file_score, scoring) == file_score,
        scoring.folder_score_as_file_score_percent == 100 ==> kind_sum(true, file_score, scoring)
            == file_score,
        scoring.folder_score_as_file_score_percent <= 0 ==> kind_sum(true, file_score, scoring)
            == 0,
        0 <= scoring.folder_score_as_file_score_percent <= 100 ==> {
            let rest = file_score * scoring.folder_score_as_file_score_percent - 100 * kind_sum(
                true,
                file_score,
                scoring,
            );
            &&& file_score >= 0 ==> 0 <= rest < 100
            &&& file_score <= 0 ==> -100 < rest <= 0
        },
{
    let percent = scoring.folder_score_as_file_score_percent as int;
    lemma_kind_sum(true, file_score, scoring);
    lemma_kind_sum(false, file_score, scoring);
    let product = file_score * arith::max_int(percent, 0);
    if percent <= 0 {
        assert(file_score * 0 == 0) by (nonlinear_arith);
    }
    if percent == 100 {
        assert(product == 100 * file_score) by (nonlinear_arith)
            requires
                product == file_score * percent,
                percent == 100,
        ;
    }
    if 0 <= percent <= 100 {
        assert((file_score >= 0 ==> 0 <= product <= 100 * file_score) && (file_score <= 0 ==> 100
            * file_score <= product <= 0)) by (nonlinear_arith)
            requires
                product == file_score * percent,
                0 <= percent <= 100,
        ;
        arith::lemma_division_leaves_a_rest(product, 100);
    }
}

/// The score of a file is the sum of what its name, its folder, its search folder, the
/// pattern rules, its history and its date give, less the penalty for its depth, wherever no
/// part is extreme.
pub proof fn lemma_file_score_is_the_sum(
    item: LaunchItem,
    query: Seq<char>,
    now: i64,
    text_score: i32,
    pattern_score: i32,
    history_score: i32,
    scoring: ScoringConfig,
)
    requires
        !item.is_dir,
        -200_000_000 <= text_score <= 200_000_000,
        -200_000_000 <= pattern_score <= 200_000_000,
        -200_000_000 <= history_score <= 200_000_000,
        -200_000_000 <= item.index_score <= 200_000_000,
        -200_000_000 <= scoring.explicit_folder_name_match_adjustment <= 200_000_000,
        scoring.recency_date_bonus <= 200_000_000,
        item.relative_depth * scoring.path_depth_penalty <= 200_000_000,
    ensures
        ({
            let c = components_of(
                item,
                query,
                now,
                text_score,
                pattern_score,
                history_score,
                scoring,
            );
            &&& c.final_score == text_score + c.path_score + item.index_score + pattern_score
                + history_score + c.recency_score - c.path_penalty
            &&& c.path_score == 0 || c.path_score == scoring.explicit_folder_name_match_adjustment
            &&& c.recency_score == recency_part(item.modified_at_unix_seconds, now, scoring)
            &&& c.path_penalty == (if scoring.path_depth_penalty > 0 {
                item.relative_depth * scoring.path_depth_penalty
            } else {
                0
            })
            &&& c.text_score == text_score && c.index_score == item.index_score && c.pattern_score
                == pattern_score && c.history_score == history_score && c.folder_score == 0
        }),
{
    let step = arith::max_int(scoring.path_depth_penalty as int, 0);
    assert(item.relative_depth * step >= 0) by (nonlinear_arith)
        requires
            step >= 0,
            item.relative_depth >= 0,
    ;
    if scoring.path_depth_penalty <= 0 {
        assert(item.relative_depth * step == 0) by (nonlinear_arith)
            requires
                step == 0,
        ;
    }
}

/// Every item fits a blank query, with one point for its text; and where a query is not
/// blank, an item fits where its name does.
pub proof fn lemma_items_fit_by_name(
    item: LaunchItem,
    spec: SearchQuerySpec,
    history_score: i32,
    scoring: ScoringConfig,
)
    ensures
        spec.folded_search_text@.len() == 0 ==> (components_for(item, spec, history_score, scoring) matches Some(
            c,
        ) && c.text_score == 1),
        spec.folded_search_text@.len() > 0 ==> (components_for(item, spec, history_score, scoring)
            is Some <==> scoring::name_score(
            spec.folded_search_text@,
            item.folded_title@,
            item.folded_stem@,
            item.folded_parent@,
            item.is_dir,
            scoring,
        ) is Some),
        components_for(item, spec, history_score, scoring) matches Some(c) ==> c.history_score
            == history_score && c.index_score == item.index_score,
{
}

/// A time before the epoch is the whole second that it lies in, counted down.
pub proof fn lemma_seconds_are_cut_down(seconds: u64, subsec_nanos: u32)
    requires
        subsec_nanos < 1_000_000_000,
    ensures
        signed_seconds(true, seconds, subsec_nanos) == seconds,
        ({
            let s = signed_seconds(false, seconds, subsec_nanos);
            let nanos = -(seconds * 1_000_000_000 + subsec_nanos);
            s * 1_000_000_000 <= nanos < (s + 1) * 1_000_000_000
        }),
{
}

} // verus!
