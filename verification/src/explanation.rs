//! Explanations of scores: one row for each rule, with what it looked at, how
//! it counts and what it added.

use crate::arith;
use crate::breakdown;
use crate::fuzzy;
use crate::scoring;
use crate::text;
use crate::types::{
    HeuristicScoreComponents, LaunchItem, PatternRule, ResultRankingKind, ScoringConfig,
    SearchQuerySpec,
};
use crate::wording::Wording;
use vstd::prelude::*;

verus! {

// ---------------------------------------------------------------------------
// Rows
// ---------------------------------------------------------------------------

/// One line of an explanation.
#[derive(Debug, PartialEq, Eq)]
pub struct ScoreExplanationRow {
    pub rule: String,
    pub input_condition: String,
    pub formula: String,
    pub score: i32,
}

/// One line over mathematical values.
pub struct Row {
    pub rule: Seq<char>,
    pub condition: Seq<char>,
    pub formula: Seq<char>,
    pub score: i32,
}

impl View for ScoreExplanationRow {
    type V = Row;

    open spec fn view(&self) -> Row {
        Row {
            rule: self.rule@,
            condition: self.input_condition@,
            formula: self.formula@,
            score: self.score,
        }
    }
}

/// The views of a list of rows.
pub open spec fn rows_of(v: Seq<ScoreExplanationRow>) -> Seq<Row> {
    Seq::new(v.len(), |i: int| v[i]@)
}

/// The sum of the scores of rows.
pub open spec fn rows_sum(rows: Seq<Row>) -> int
    decreases rows.len(),
{
    if rows.len() == 0 {
        0
    } else {
        rows_sum(rows.drop_last()) + rows.last().score
    }
}

/// How a result got its place.
#[derive(Debug, PartialEq, Eq)]
pub struct ScoreExplanation {
    pub ranking_kind: ResultRankingKind,
    pub query: String,
    pub item_path: String,
    pub search_root: String,
    pub relative_depth: usize,
    pub final_score: i32,
    pub summary: String,
    pub rows: Vec<ScoreExplanationRow>,
}

/// Appends a row.
fn push_row(
    rows: &mut Vec<ScoreExplanationRow>,
    rule: String,
    input_condition: String,
    formula: String,
    score: i32,
)
    ensures
        rows_of(final(rows)@) == rows_of(old(rows)@).push(
            Row { rule: rule@, condition: input_condition@, formula: formula@, score },
        ),
{
    let ghost before = rows@;
    let ghost model = Row { rule: rule@, condition: input_condition@, formula: formula@, score };
    rows.push(ScoreExplanationRow { rule, input_condition, formula, score });
    proof {
        assert(rows_of(rows@) =~= rows_of(before).push(model));
    }
}

/// The state of a rule in words.
pub open spec fn condition_text(
    enabled: bool,
    matched: bool,
    matched_text: Seq<char>,
    wording: Wording,
) -> Seq<char> {
    if !enabled {
        wording.said("Disabled"@)
    } else if matched {
        matched_text
    } else {
        wording.said("Not matched"@)
    }
}

/// The state of a rule in words.
fn rule_condition(
    enabled: bool,
    matched: bool,
    matched_text: String,
    wording: &Wording,
) -> (r: String)
    ensures
        r@ == condition_text(enabled, matched, matched_text@, *wording),
{
    if !enabled {
        wording.say("Disabled")
    } else if matched {
        matched_text
    } else {
        wording.say("Not matched")
    }
}

/// A score that counts or is only shown.
pub open spec fn counted(contributes: bool, score: int) -> i32 {
    if contributes {
        score as i32
    } else {
        0
    }
}

// ---------------------------------------------------------------------------
// Text rules
// ---------------------------------------------------------------------------

/// Positions in words.
pub open spec fn positions_text(positions: Seq<int>) -> Seq<char> {
    text::join(Seq::new(positions.len(), |i: int| text::decimal(positions[i])), ", "@)
}

/// The positions of the best fuzzy match.
pub open spec fn best_positions(query: Seq<char>, candidate: Seq<char>, scoring: ScoringConfig) -> Seq<
    int,
> {
    fuzzy::greedy_positions(
        query,
        candidate,
        fuzzy::best_start(query, candidate, scoring, candidate.len() as int)->0,
    )->0
}

/// The row of a bonus rule.
pub open spec fn bonus_row(
    label: Seq<char>,
    name: Seq<char>,
    bonus: i32,
    matched: bool,
    query: Seq<char>,
    formula: Seq<char>,
    contributes: bool,
    wording: Wording,
) -> Row {
    Row {
        rule: wording.said_with("{} {}"@, seq![label, wording.said(name)]),
        condition: condition_text(
            bonus != 0,
            matched,
            wording.said_with("Matched '{}'"@, seq![query]),
            wording,
        ),
        formula: wording.said(formula),
        score: counted(contributes, if bonus != 0 && matched { bonus as int } else { 0 }),
    }
}

/// The rows of the fuzzy match itself.
pub open spec fn match_rows(
    label: Seq<char>,
    query: Seq<char>,
    candidate: Seq<char>,
    scoring: ScoringConfig,
    contributes: bool,
    wording: Wording,
) -> Seq<Row> {
    let positions = best_positions(query, candidate, scoring);
    let query_length = fuzzy::counted_length(positions.len());
    let candidate_length = fuzzy::counted_length(candidate.len());
    let first_index = arith::length_i32(positions[0]);
    let adjacent = arith::length_i32(fuzzy::adjacent_pairs(positions) as int);
    seq![
        Row {
            rule: wording.said_with("{} fuzzy positions"@, seq![label]),
            condition: wording.said_with(
                "Query '{}' in '{}' at [{}]"@,
                seq![query, candidate, positions_text(positions)],
            ),
            formula: wording.said("Best ordered character route"@),
            score: 0,
        },
        Row {
            rule: wording.said_with("{} length component"@, seq![label]),
            condition: wording.said_with(
                "{} query chars / {} candidate chars"@,
                seq![text::decimal(query_length as int), text::decimal(candidate_length as int)],
            ),
            formula: text::decimal(query_length as int) + " * "@ + text::decimal(
                arith::max_int(scoring.length_score_weight as int, 0),
            ) + " / "@ + text::decimal(candidate_length as int),
            score: counted(
                contributes,
                fuzzy::length_share(query_length, candidate_length, scoring),
            ),
        },
        Row {
            rule: wording.said_with("{} leftmost component"@, seq![label]),
            condition: wording.said_with(
                "First matched character index {}"@,
                seq![text::decimal(first_index as int)],
            ),
            formula: "max(0, "@ + text::decimal(scoring.leftmost_match_bonus as int) + " - "@
                + text::decimal(first_index as int) + " * "@ + text::decimal(
                scoring.leftmost_distance_penalty as int,
            ) + ")"@,
            score: counted(contributes, fuzzy::leftmost_share(first_index, scoring)),
        },
        Row {
            rule: wording.said_with("{} compact component"@, seq![label]),
            condition: wording.said_with(
                "{} adjacent pairs"@,
                seq![text::decimal(adjacent as int)],
            ),
            formula: text::decimal(adjacent as int) + " * "@ + text::decimal(
                arith::max_int(scoring.compact_match_bonus as int, 0),
            ) + " / max(1, "@ + text::decimal(query_length as int) + " - 1)"@,
            score: counted(contributes, fuzzy::compact_share(adjacent, query_length, scoring)),
        },
    ]
}

/// The rows of the bonus rules.
pub open spec fn bonus_rows(
    label: Seq<char>,
    query: Seq<char>,
    candidate: Seq<char>,
    scoring: ScoringConfig,
    contributes: bool,
    wording: Wording,
) -> Seq<Row> {
    seq![
        bonus_row(
            label,
            "Exact Match Bonus"@,
            scoring.exact_match_bonus,
            candidate == query,
            query,
            "candidate == query"@,
            contributes,
            wording,
        ),
        bonus_row(
            label,
            "Exact Word Bonus"@,
            scoring.exact_word_bonus,
            scoring::is_exact_word(candidate, query),
            query,
            "query is a complete word"@,
            contributes,
            wording,
        ),
        bonus_row(
            label,
            "Prefix Match Bonus"@,
            scoring.prefix_match_bonus,
            text::has_prefix(candidate, query),
            query,
            "candidate starts with query"@,
            contributes,
            wording,
        ),
        bonus_row(
            label,
            "Word Boundary Bonus"@,
            scoring.word_boundary_bonus,
            scoring::at_word_boundary(candidate, query),
            query,
            "query starts at a word boundary"@,
            contributes,
            wording,
        ),
        bonus_row(
            label,
            "Consecutive Match Bonus"@,
            scoring.consecutive_match_bonus,
            text::has_infix(candidate, query),
            query,
            "candidate contains query contiguously"@,
            contributes,
            wording,
        ),
        bonus_row(
            label,
            "Acronym Match Bonus"@,
            scoring.acronym_match_bonus,
            scoring::is_acronym(candidate, query),
            query,
            "query matches word initials"@,
            contributes,
            wording,
        ),
    ]
}

/// The rows of a query against a candidate; none where the query does not fit.
pub open spec fn text_rule_rows(
    label: Seq<char>,
    query: Seq<char>,
    candidate: Seq<char>,
    scoring: ScoringConfig,
    contributes: bool,
    wording: Wording,
) -> Seq<Row> {
    match (fuzzy::fuzzy(query, candidate, scoring), scoring::text_score(query, candidate, scoring)) {
        (Some(_), Some(total)) => {
            let rows = match_rows(
                label,
                query,
                candidate,
                scoring,
                contributes,
                wording,
            ) + bonus_rows(
                label,
                query,
                candidate,
                scoring,
                contributes,
                wording,
            );
            if contributes {
                rows
            } else {
                rows.push(
                    Row {
                        rule: wording.said_with("{} calculated score"@, seq![label]),
                        condition: wording.said_with(
                            "Calculated {}; route not selected"@,
                            seq![text::decimal(total as int)],
                        ),
                        formula: wording.said("Informational only"@),
                        score: 0,
                    },
                )
            }
        },
        _ => Seq::empty(),
    }
}

fn number(i: i32) -> (r: String)
    ensures
        r@ == text::decimal(i as int),
{
    text::decimal_i64(i as i64)
}

fn count_or_zero(contributes: bool, score: i32) -> (r: i32)
    ensures
        r == counted(contributes, score as int),
{
    if contributes {
        score
    } else {
        0
    }
}

fn positions_in_words(candidate: &str, bytes: &[usize], Ghost(positions): Ghost<Seq<int>>) -> (r:
    String)
    requires
        bytes@.len() == positions.len(),
        forall|k: int| 0 <= k < positions.len() ==> 0 <= #[trigger] positions[k] < candidate@.len(),
        forall|k: int|
            0 <= k < positions.len() ==> #[trigger] bytes@[k] == text::byte_offset(
                candidate@,
                positions[k],
            ),
    ensures
        r@ == positions_text(positions),
{
    let mut parts: Vec<String> = Vec::new();
    let mut k: usize = 0;
    while k < bytes.len()
        invariant
            k <= bytes.len(),
            bytes@.len() == positions.len(),
            forall|m: int|
                0 <= m < positions.len() ==> 0 <= #[trigger] positions[m] < candidate@.len(),
            forall|m: int|
                0 <= m < positions.len() ==> #[trigger] bytes@[m] == text::byte_offset(
                    candidate@,
                    positions[m],
                ),
            parts@.len() == k,
            forall|m: int| 0 <= m < k ==> (#[trigger] parts@[m])@ == text::decimal(positions[m]),
        decreases bytes.len() - k,
    {
        proof {
            assert(0 <= positions[k as int] < candidate@.len());
            assert(bytes@[k as int] == text::byte_offset(candidate@, positions[k as int]));
        }
        let p: usize = text::position_of_byte(candidate, bytes[k], Ghost(positions[k as int]));
        parts.push(text::decimal_u64(p as u64));
        k += 1;
    }
    proof {
        assert(text::texts(parts@) =~= Seq::new(
            positions.len(),
            |i: int| text::decimal(positions[i]),
        ));
    }
    text::join_texts(parts.as_slice(), ", ")
}

fn push_bonus_row(
    rows: &mut Vec<ScoreExplanationRow>,
    label: &str,
    name: &str,
    bonus: i32,
    matched: bool,
    query: &str,
    formula: &str,
    contributes: bool,
    wording: &Wording,
)
    ensures
        rows_of(final(rows)@) == rows_of(old(rows)@).push(
            bonus_row(label@, name@, bonus, matched, query@, formula@, contributes, *wording),
        ),
{
    let condition = rule_condition(
        bonus != 0,
        matched,
        wording.say_with_one("Matched '{}'", query),
        wording,
    );
    let own_name = wording.say(name);
    let score: i32 = count_or_zero(
        contributes,
        if bonus != 0 && matched {
            bonus
        } else {
            0
        },
    );
    push_row(
        rows,
        wording.say_with_two("{} {}", label, own_name.as_str()),
        condition,
        wording.say(formula),
        score,
    );
}

fn push_match_rows(
    rows: &mut Vec<ScoreExplanationRow>,
    label: &str,
    query: &str,
    candidate: &str,
    scoring: &ScoringConfig,
    contributes: bool,
    parts: &fuzzy::FuzzyScoreParts,
    wording: &Wording,
)
    requires
        query@.len() > 0,
        fuzzy::fuzzy(query@, candidate@, *scoring) is Some,
        fuzzy::describes_match(
            *parts,
            candidate@,
            best_positions(query@, candidate@, *scoring),
            *scoring,
        ),
    ensures
        rows_of(final(rows)@) == rows_of(old(rows)@) + match_rows(
            label@,
            query@,
            candidate@,
            *scoring,
            contributes,
            *wording,
        ),
{
    let ghost before = rows_of(rows@);
    let ghost positions = best_positions(query@, candidate@, *scoring);
    proof {
        fuzzy::lemma_best_start(query@, candidate@, *scoring, candidate@.len() as int);
        fuzzy::lemma_greedy_positions(
            query@,
            candidate@,
            fuzzy::best_start(query@, candidate@, *scoring, candidate@.len() as int)->0,
        );
    }
    let places = positions_in_words(candidate, parts.positions.as_slice(), Ghost(positions));
    let condition = wording.say_with_three(
        "Query '{}' in '{}' at [{}]",
        query,
        candidate,
        places.as_str(),
    );
    push_row(
        rows,
        wording.say_with_one("{} fuzzy positions", label),
        condition,
        wording.say("Best ordered character route"),
        0,
    );
    let query_length = number(parts.query_length);
    let candidate_length = number(parts.candidate_length);
    let length_weight = number(arith::max_i32(scoring.length_score_weight, 0));
    push_row(
        rows,
        wording.say_with_one("{} length component", label),
        wording.say_with_two(
            "{} query chars / {} candidate chars",
            query_length.as_str(),
            candidate_length.as_str(),
        ),
        text::cat5(
            query_length.as_str(),
            " * ",
            length_weight.as_str(),
            " / ",
            candidate_length.as_str(),
        ),
        count_or_zero(contributes, parts.length_score),
    );
    let first_index = number(parts.first_character_index);
    let leftmost = number(scoring.leftmost_match_bonus);
    let distance = number(scoring.leftmost_distance_penalty);
    push_row(
        rows,
        wording.say_with_one("{} leftmost component", label),
        wording.say_with_one("First matched character index {}", first_index.as_str()),
        text::cat7(
            "max(0, ",
            leftmost.as_str(),
            " - ",
            first_index.as_str(),
            " * ",
            distance.as_str(),
            ")",
        ),
        count_or_zero(contributes, parts.leftmost_score),
    );
    let adjacent = number(parts.adjacent_pairs);
    let compact_weight = number(arith::max_i32(scoring.compact_match_bonus, 0));
    push_row(
        rows,
        wording.say_with_one("{} compact component", label),
        wording.say_with_one("{} adjacent pairs", adjacent.as_str()),
        text::cat6(
            adjacent.as_str(),
            " * ",
            compact_weight.as_str(),
            " / max(1, ",
            query_length.as_str(),
            " - 1)",
        ),
        count_or_zero(contributes, parts.compact_score),
    );
    proof {
        assert(rows_of(rows@) =~= before + match_rows(
            label@,
            query@,
            candidate@,
            *scoring,
            contributes,
            *wording,
        ));
    }
}

#[verifier::rlimit(60)]
#[verifier::spinoff_prover]
fn push_bonus_rows(
    rows: &mut Vec<ScoreExplanationRow>,
    label: &str,
    query: &str,
    candidate: &str,
    scoring: &ScoringConfig,
    contributes: bool,
    wording: &Wording,
)
    ensures
        rows_of(final(rows)@) == rows_of(old(rows)@) + bonus_rows(
            label@,
            query@,
            candidate@,
            *scoring,
            contributes,
            *wording,
        ),
{
    let ghost before = rows_of(rows@);
    let q = text::chars_of(query);
    let c = text::chars_of(candidate);
    push_bonus_row(
        rows,
        label,
        "Exact Match Bonus",
        scoring.exact_match_bonus,
        text::same_text(candidate, query),
        query,
        "candidate == query",
        contributes,
        wording,
    );
    push_bonus_row(
        rows,
        label,
        "Exact Word Bonus",
        scoring.exact_word_bonus,
        scoring::exact_word_match(candidate, query),
        query,
        "query is a complete word",
        contributes,
        wording,
    );
    push_bonus_row(
        rows,
        label,
        "Prefix Match Bonus",
        scoring.prefix_match_bonus,
        text::begins_with(c.as_slice(), q.as_slice()),
        query,
        "candidate starts with query",
        contributes,
        wording,
    );
    push_bonus_row(
        rows,
        label,
        "Word Boundary Bonus",
        scoring.word_boundary_bonus,
        scoring::word_boundary_match(candidate, query),
        query,
        "query starts at a word boundary",
        contributes,
        wording,
    );
    push_bonus_row(
        rows,
        label,
        "Consecutive Match Bonus",
        scoring.consecutive_match_bonus,
        text::contains_chars(c.as_slice(), q.as_slice()),
        query,
        "candidate contains query contiguously",
        contributes,
        wording,
    );
    push_bonus_row(
        rows,
        label,
        "Acronym Match Bonus",
        scoring.acronym_match_bonus,
        scoring::acronym_starts_with(candidate, query),
        query,
        "query matches word initials",
        contributes,
        wording,
    );
    proof {
        assert(rows_of(rows@) =~= before + bonus_rows(
            label@,
            query@,
            candidate@,
            *scoring,
            contributes,
            *wording,
        ));
    }
}

/// Appends the rows of a query against a candidate and gives the text score.
/// Where the query does not fit, nothing is appended.
pub fn append_text_rule_rows(
    rows: &mut Vec<ScoreExplanationRow>,
    label: &str,
    query: &str,
    candidate: &str,
    scoring: &ScoringConfig,
    contributes: bool,
    wording: &Wording,
) -> (r: Option<i32>)
    ensures
        rows_of(final(rows)@) == rows_of(old(rows)@) + text_rule_rows(
            label@,
            query@,
            candidate@,
            *scoring,
            contributes,
            *wording,
        ),
        r == (match fuzzy::fuzzy(query@, candidate@, *scoring) {
            Some(_) => scoring::text_score(query@, candidate@, *scoring),
            None => None,
        }),
{
    let ghost before = rows_of(rows@);
    proof {
        assert(before + Seq::<Row>::empty() =~= before);
    }
    let parts = match fuzzy::fuzzy_score_parts(query, candidate, scoring) {
        Some(parts) => parts,
        None => {
            return None;
        },
    };
    let total: i32 = match scoring::score_text_with_config(query, candidate, false, scoring) {
        Some(total) => total,
        None => {
            return None;
        },
    };
    push_match_rows(rows, label, query, candidate, scoring, contributes, &parts, wording);
    push_bonus_rows(rows, label, query, candidate, scoring, contributes, wording);
    if !contributes {
        let value = number(total);
        push_row(
            rows,
            wording.say_with_one("{} calculated score", label),
            wording.say_with_one("Calculated {}; route not selected", value.as_str()),
            wording.say("Informational only"),
            0,
        );
    }
    proof {
        assert(rows_of(rows@) =~= before + text_rule_rows(
            label@,
            query@,
            candidate@,
            *scoring,
            contributes,
            *wording,
        ));
    }
    Some(total)
}

// ---------------------------------------------------------------------------
// The explanation of a heuristic score
// ---------------------------------------------------------------------------

/// The sum of the scores of tokens that all fit a candidate.
pub open spec fn fitting_sum(tokens: Seq<Seq<char>>, candidate: Seq<char>, scoring: ScoringConfig) -> Option<
    int,
>
    decreases tokens.len(),
{
    if tokens.len() == 0 {
        Some(0)
    } else {
        match (
            fitting_sum(tokens.drop_last(), candidate, scoring),
            scoring::text_score(tokens.last(), candidate, scoring),
        ) {
            (Some(before), Some(score)) => Some(before + score),
            _ => None,
        }
    }
}

/// The average score of two or more tokens that all fit a candidate.
pub open spec fn fitting_average(
    tokens: Seq<Seq<char>>,
    candidate: Seq<char>,
    scoring: ScoringConfig,
) -> Option<int> {
    match fitting_sum(tokens, candidate, scoring) {
        Some(sum) => if tokens.len() > 1 {
            Some(sum / (tokens.len() as int))
        } else {
            None
        },
        None => None,
    }
}

/// The whole query scores at least as high as the average of its tokens.
pub open spec fn whole_route(query: Seq<char>, candidate: Seq<char>, scoring: ScoringConfig) -> bool {
    match (
        scoring::text_score(query, candidate, scoring),
        fitting_average(text::words(query), candidate, scoring),
    ) {
        (Some(whole), Some(average)) => whole >= average,
        (None, Some(_)) => false,
        (_, None) => true,
    }
}

/// An optional number in words.
pub open spec fn optional_text(value: Option<int>) -> Seq<char> {
    match value {
        Some(v) => "Some("@ + text::decimal(v) + ")"@,
        None => "None"@,
    }
}

/// The row of one token.
pub open spec fn token_row(
    index: int,
    token: Seq<char>,
    candidate: Seq<char>,
    scoring: ScoringConfig,
    wording: Wording,
) -> Row {
    Row {
        rule: wording.said_with("Token {} score"@, seq![text::decimal(index + 1)]),
        condition: match scoring::text_score(token, candidate, scoring) {
            Some(score) => wording.said_with(
                "'{}' matched with raw score {}"@,
                seq![token, text::decimal(score as int)],
            ),
            None => wording.said("Not matched"@),
        },
        formula: wording.said("Token score; averaged only when all tokens match"@),
        score: 0,
    }
}

/// The rows of the tokens.
pub open spec fn token_rows(
    tokens: Seq<Seq<char>>,
    candidate: Seq<char>,
    scoring: ScoringConfig,
    wording: Wording,
) -> Seq<Row> {
    Seq::new(tokens.len(), |i: int| token_row(i, tokens[i], candidate, scoring, wording))
}

/// How the two routes of a text score are weighed.
pub open spec fn route_formula(whole: Option<int>, average: Option<int>, wording: Wording) -> Seq<char> {
    wording.said_with(
        "max(whole {:?}, token average {:?})"@,
        seq![optional_text(whole), optional_text(average)],
    )
}

/// The row that names the selected route.
pub open spec fn route_row(
    query: Seq<char>,
    candidate: Seq<char>,
    text_score: i32,
    scoring: ScoringConfig,
    wording: Wording,
) -> Row {
    let whole = scoring::text_score(query, candidate, scoring);
    let selected = whole_route(query, candidate, scoring);
    Row {
        rule: wording.said("Selected text route"@),
        condition: if selected {
            wording.said("Whole-query route selected"@)
        } else {
            wording.said("Token-average route selected"@)
        },
        formula: route_formula(
            match whole {
                Some(w) => Some(w as int),
                None => None,
            },
            fitting_average(text::words(query), candidate, scoring),
            wording,
        ),
        score: if selected {
            0
        } else {
            text_score
        },
    }
}

/// The query is the name of a file without its extension.
pub open spec fn stem_is_query(item: LaunchItem, query: Seq<char>) -> bool {
    !item.is_dir && item.folded_stem@.len() > 0 && item.folded_stem@ == query && item.folded_title@
        != query
}

/// The rows of the text part.
pub open spec fn text_rows(
    item: LaunchItem,
    query: Seq<char>,
    text_score: i32,
    scoring: ScoringConfig,
    wording: Wording,
) -> Seq<Row> {
    if query.len() == 0 {
        seq![
            Row {
                rule: wording.said("Blank query baseline"@),
                condition: wording.said("Blank heuristic query"@),
                formula: wording.said("Baseline match score"@),
                score: text_score,
            },
        ]
    } else {
        let title = item.folded_title@;
        (text_rule_rows(
            wording.said("Whole query"@),
            query,
            title,
            scoring,
            whole_route(query, title, scoring),
            wording,
        )
            + token_rows(text::words(query), title, scoring, wording)).push(
            route_row(query, title, text_score, scoring, wording),
        ).push(
            Row {
                rule: wording.said("Filename stem exact bonus"@),
                condition: condition_text(
                    scoring.exact_match_bonus != 0,
                    stem_is_query(item, query),
                    wording.said("Stem exactly matched without extension"@),
                    wording,
                ),
                formula: wording.said(
                    "Add Exact Match Bonus once more for an exact file stem"@,
                ),
                score: if stem_is_query(item, query) {
                    scoring.exact_match_bonus
                } else {
                    0
                },
            },
        )
    }
}

/// The rows of the place of an item.
pub open spec fn place_rows(
    item: LaunchItem,
    c: HeuristicScoreComponents,
    scoring: ScoringConfig,
    wording: Wording,
) -> Seq<Row> {
    seq![
        Row {
            rule: wording.said("Parent-folder query match"@),
            condition: condition_text(
                scoring.explicit_folder_name_match_adjustment != 0,
                c.path_score != 0,
                wording.said("Parent folder matched query"@),
                wording,
            ),
            formula: wording.said("Explicit Folder Name Match Adjustment"@),
            score: c.path_score,
        },
        Row {
            rule: wording.said("Search Folder score"@),
            condition: match item.search_root {
                Some(root) => root@,
                None => wording.said("No owning Search Folder"@),
            },
            formula: wording.said("Configured Search Folder score"@),
            score: c.index_score,
        },
    ]
}

/// The row of a pattern rule.
pub open spec fn pattern_row(
    rule: PatternRule,
    item: LaunchItem,
    modifiers: Seq<Seq<char>>,
    any_match: bool,
    wording: Wording,
) -> Row {
    let applies = scoring::keywords_apply(text::texts(rule.modifiers@), modifiers, any_match);
    let matched = applies && scoring::rule_matches(
        rule,
        text::fold(item.path@),
        scoring::folded_file_name(item.path@),
    );
    Row {
        rule: wording.said_with("Pattern {}"@, seq![rule.pattern@]),
        condition: if !applies {
            wording.said_with(
                "Modifier condition not met: {}"@,
                seq![scoring::keywords_shown(text::texts(rule.modifiers@))],
            )
        } else if matched {
            wording.said("Matched"@)
        } else {
            wording.said("Not matched"@)
        },
        formula: wording.said_with("Pattern score {}"@, seq![text::decimal(rule.score as int)]),
        score: if matched {
            rule.score
        } else {
            0
        },
    }
}

/// The rows of the pattern rules.
pub open spec fn pattern_rows(
    rules: Seq<PatternRule>,
    item: LaunchItem,
    modifiers: Seq<Seq<char>>,
    any_match: bool,
    wording: Wording,
) -> Seq<Row> {
    Seq::new(rules.len(), |i: int| pattern_row(rules[i], item, modifiers, any_match, wording))
}

/// The rows of history, age, kind and depth, and the sum.
pub open spec fn closing_rows(
    item: LaunchItem,
    raw_history: Option<Seq<char>>,
    c: HeuristicScoreComponents,
    scoring: ScoringConfig,
    wording: Wording,
) -> Seq<Row> {
    seq![
        Row {
            rule: wording.said("History raw score"@),
            condition: match raw_history {
                Some(raw) => wording.said_with("Raw history score {}"@, seq![raw]),
                None => wording.said("Not matched"@),
            },
            formula: wording.said_with(
                "min(raw score, Recent Score Ceiling {})"@,
                seq![text::decimal(scoring.recent_score_ceiling as int)],
            ),
            score: c.history_score,
        },
        Row {
            rule: wording.said("Modified-date recency"@),
            condition: if !scoring.recency_date_enabled {
                wording.said("Disabled"@)
            } else if item.modified_at_unix_seconds is Some {
                wording.said("Modified date available"@)
            } else {
                wording.said("Not matched"@)
            },
            formula: wording.said("100%, 50%, 25%, or 0% by age band"@),
            score: c.recency_score,
        },
        Row {
            rule: wording.said("Folder Score As % of File Score"@),
            condition: condition_text(
                scoring.folder_score_as_file_score_percent != 100,
                item.is_dir,
                wording.said("Item is a folder"@),
                wording,
            ),
            formula: wording.said_with(
                "Folder score is {}% of file score"@,
                seq![
                    text::decimal(
                        arith::max_int(scoring.folder_score_as_file_score_percent as int, 0),
                    ),
                ],
            ),
            score: c.folder_score,
        },
        Row {
            rule: wording.said("Path Depth Penalty"@),
            condition: wording.said_with(
                "Relative depth {}"@,
                seq![text::decimal(item.relative_depth as int)],
            ),
            formula: "-"@ + text::decimal(item.relative_depth as int) + " * "@ + text::decimal(
                arith::max_int(scoring.path_depth_penalty as int, 0),
            ),
            score: (-c.path_penalty) as i32,
        },
        Row {
            rule: wording.said("Final score"@),
            condition: wording.said("Sum of contribution rows"@),
            formula: text::decimal(c.text_score as int) + " + "@ + text::decimal(
                c.path_score as int,
            ) + " + "@ + text::decimal(c.index_score as int) + " + "@ + text::decimal(
                c.pattern_score as int,
            ) + " + "@ + text::decimal(c.history_score as int) + " + "@ + text::decimal(
                c.recency_score as int,
            ) + " + "@ + text::decimal(c.folder_score as int) + " - "@ + text::decimal(
                c.path_penalty as int,
            ),
            score: 0,
        },
    ]
}

/// All rows of a heuristic score.
pub open spec fn heuristic_rows(
    item: LaunchItem,
    spec: SearchQuerySpec,
    raw_history: Option<Seq<char>>,
    c: HeuristicScoreComponents,
    scoring: ScoringConfig,
    wording: Wording,
) -> Seq<Row> {
    let modifiers = text::texts(spec.scoring_modifiers@);
    text_rows(
        item,
        text::trimmed(spec.folded_search_text@),
        c.text_score,
        scoring,
        wording,
    ) + place_rows(
        item,
        c,
        scoring,
        wording,
    ) + pattern_rows(
        scoring.pattern_rules@,
        item,
        modifiers,
        scoring::any_rule_matches(scoring.pattern_rules@, modifiers),
        wording,
    ) + closing_rows(item, raw_history, c, scoring, wording)
}

proof fn lemma_fitting_sum(tokens: Seq<Seq<char>>, candidate: Seq<char>, scoring: ScoringConfig)
    ensures
        fitting_sum(tokens, candidate, scoring) matches Some(sum) ==> tokens.len() <= sum
            <= i32::MAX * tokens.len(),
    decreases tokens.len(),
{
    if tokens.len() > 0 {
        lemma_fitting_sum(tokens.drop_last(), candidate, scoring);
    }
}

proof fn lemma_fitting_sum_none(
    tokens: Seq<Seq<char>>,
    candidate: Seq<char>,
    scoring: ScoringConfig,
    n: int,
)
    requires
        0 <= n <= tokens.len(),
        fitting_sum(tokens.take(n), candidate, scoring) is None,
    ensures
        fitting_sum(tokens, candidate, scoring) is None,
    decreases tokens.len(),
{
    if n < tokens.len() {
        assert(tokens.drop_last().take(n) =~= tokens.take(n));
        lemma_fitting_sum_none(tokens.drop_last(), candidate, scoring, n);
    } else {
        assert(tokens.take(n) =~= tokens);
    }
}

fn average_of_tokens(tokens: &[String], candidate: &str, scoring: &ScoringConfig) -> (r: Option<i32>)
    ensures
        match fitting_average(text::texts(tokens@), candidate@, *scoring) {
            Some(average) => r matches Some(found) && found == average,
            None => r is None,
        },
{
    let ghost all = text::texts(tokens@);
    let mut sum: i128 = 0;
    let mut i: usize = 0;
    proof {
        assert(all.take(0) =~= Seq::<Seq<char>>::empty());
    }
    while i < tokens.len()
        invariant
            i <= tokens.len(),
            all == text::texts(tokens@),
            fitting_sum(all.take(i as int), candidate@, *scoring) == Some(sum as int),
            0 <= sum <= i32::MAX * i,
        decreases tokens.len() - i,
    {
        proof {
            assert(all.take(i + 1).drop_last() =~= all.take(i as int));
            assert(all.take(i + 1).last() == tokens@[i as int]@);
            assert(i32::MAX * i <= 0x7fff_ffff * 0xffff_ffff_ffff_ffff) by (nonlinear_arith)
                requires
                    0 <= i <= 0xffff_ffff_ffff_ffff,
                    i32::MAX == 0x7fff_ffff,
            ;
        }
        match scoring::score_text_with_config(tokens[i].as_str(), candidate, false, scoring) {
            Some(score) => {
                sum = sum + score as i128;
            },
            None => {
                proof {
                    lemma_fitting_sum_none(all, candidate@, *scoring, i + 1);
                }
                return None;
            },
        }
        i += 1;
    }
    proof {
        assert(all.take(tokens@.len() as int) =~= all);
    }
    if tokens.len() <= 1 {
        return None;
    }
    let count: i128 = tokens.len() as i128;
    proof {
        assert(0 <= sum / count <= i32::MAX) by (nonlinear_arith)
            requires
                0 <= sum <= i32::MAX * count,
                count > 0,
        ;
    }
    Some((sum / count) as i32)
}

fn optional_in_words(value: Option<i32>) -> (r: String)
    ensures
        r@ == optional_text(
            match value {
                Some(v) => Some(v as int),
                None => None,
            },
        ),
{
    match value {
        Some(v) => {
            let n = number(v);
            text::cat3("Some(", n.as_str(), ")")
        },
        None => "None".to_owned(),
    }
}

fn say_route_formula(whole: Option<i32>, average: Option<i32>, wording: &Wording) -> (r: String)
    ensures
        r@ == route_formula(
            match whole {
                Some(w) => Some(w as int),
                None => None,
            },
            match average {
                Some(a) => Some(a as int),
                None => None,
            },
            *wording,
        ),
{
    let whole_text = optional_in_words(whole);
    let average_text = optional_in_words(average);
    wording.say_with_two(
        "max(whole {:?}, token average {:?})",
        whole_text.as_str(),
        average_text.as_str(),
    )
}

fn push_token_rows(
    rows: &mut Vec<ScoreExplanationRow>,
    tokens: &[String],
    candidate: &str,
    scoring: &ScoringConfig,
    wording: &Wording,
)
    ensures
        rows_of(final(rows)@) == rows_of(old(rows)@) + token_rows(
            text::texts(tokens@),
            candidate@,
            *scoring,
            *wording,
        ),
{
    let ghost before = rows_of(rows@);
    let ghost all = text::texts(tokens@);
    let ghost wanted = token_rows(all, candidate@, *scoring, *wording);
    let mut i: usize = 0;
    proof {
        assert(before + wanted.take(0) =~= before);
    }
    while i < tokens.len()
        invariant
            i <= tokens.len(),
            all == text::texts(tokens@),
            wanted == token_rows(all, candidate@, *scoring, *wording),
            rows_of(rows@) == before + wanted.take(i as int),
        decreases tokens.len() - i,
    {
        let index = text::decimal_u64(i as u64 + 1);
        let condition = match scoring::score_text_with_config(
            tokens[i].as_str(),
            candidate,
            false,
            scoring,
        ) {
            Some(score) => {
                let n = number(score);
                wording.say_with_two(
                    "'{}' matched with raw score {}",
                    tokens[i].as_str(),
                    n.as_str(),
                )
            },
            None => wording.say("Not matched"),
        };
        push_row(
            rows,
            wording.say_with_one("Token {} score", index.as_str()),
            condition,
            wording.say("Token score; averaged only when all tokens match"),
            0,
        );
        proof {
            assert(all[i as int] == tokens@[i as int]@);
            assert(wanted[i as int] == token_row(
                i as int,
                all[i as int],
                candidate@,
                *scoring,
                *wording,
            ));
            assert(wanted.take(i + 1) =~= wanted.take(i as int).push(wanted[i as int]));
            assert(before + wanted.take(i + 1) =~= (before + wanted.take(i as int)).push(
                wanted[i as int],
            ));
        }
        i += 1;
    }
    proof {
        assert(wanted.take(tokens@.len() as int) =~= wanted);
    }
}

fn push_text_rows(
    rows: &mut Vec<ScoreExplanationRow>,
    item: &LaunchItem,
    query: &str,
    text_score: i32,
    scoring: &ScoringConfig,
    wording: &Wording,
)
    ensures
        rows_of(final(rows)@) == rows_of(old(rows)@) + text_rows(
            *item,
            query@,
            text_score,
            *scoring,
            *wording,
        ),
{
    let ghost before = rows_of(rows@);
    let candidate = item.folded_title.as_str();
    if query.is_empty() {
        push_row(
            rows,
            wording.say("Blank query baseline"),
            wording.say("Blank heuristic query"),
            wording.say("Baseline match score"),
            text_score,
        );
        proof {
            assert(rows_of(rows@) =~= before + text_rows(
                *item,
                query@,
                text_score,
                *scoring,
                *wording,
            ));
        }
        return;
    }
    let tokens = text::split_whitespace(query);
    let whole = scoring::score_text_with_config(query, candidate, false, scoring);
    let average = average_of_tokens(tokens.as_slice(), candidate, scoring);
    let whole_selected = match (whole, average) {
        (Some(w), Some(a)) => w >= a,
        (None, Some(_)) => false,
        (_, None) => true,
    };
    let label = wording.say("Whole query");
    let _ = append_text_rule_rows(
        rows,
        label.as_str(),
        query,
        candidate,
        scoring,
        whole_selected,
        wording,
    );
    push_token_rows(rows, tokens.as_slice(), candidate, scoring, wording);
    let condition = if whole_selected {
        wording.say("Whole-query route selected")
    } else {
        wording.say("Token-average route selected")
    };
    let formula = say_route_formula(whole, average, wording);
    push_row(
        rows,
        wording.say("Selected text route"),
        condition,
        formula,
        if whole_selected {
            0
        } else {
            text_score
        },
    );
    let stem_exact = !item.is_dir && !item.folded_stem.as_str().is_empty() && text::same_text(
        item.folded_stem.as_str(),
        query,
    ) && !text::same_text(candidate, query);
    push_row(
        rows,
        wording.say("Filename stem exact bonus"),
        rule_condition(
            scoring.exact_match_bonus != 0,
            stem_exact,
            wording.say("Stem exactly matched without extension"),
            wording,
        ),
        wording.say("Add Exact Match Bonus once more for an exact file stem"),
        if stem_exact {
            scoring.exact_match_bonus
        } else {
            0
        },
    );
    proof {
        assert(rows_of(rows@) =~= before + text_rows(
            *item,
            query@,
            text_score,
            *scoring,
            *wording,
        ));
    }
}

fn push_place_rows(
    rows: &mut Vec<ScoreExplanationRow>,
    item: &LaunchItem,
    c: &HeuristicScoreComponents,
    scoring: &ScoringConfig,
    wording: &Wording,
)
    ensures
        rows_of(final(rows)@) == rows_of(old(rows)@) + place_rows(*item, *c, *scoring, *wording),
{
    let ghost before = rows_of(rows@);
    push_row(
        rows,
        wording.say("Parent-folder query match"),
        rule_condition(
            scoring.explicit_folder_name_match_adjustment != 0,
            c.path_score != 0,
            wording.say("Parent folder matched query"),
            wording,
        ),
        wording.say("Explicit Folder Name Match Adjustment"),
        c.path_score,
    );
    let root = match &item.search_root {
        Some(root) => root.clone(),
        None => wording.say("No owning Search Folder"),
    };
    push_row(
        rows,
        wording.say("Search Folder score"),
        root,
        wording.say("Configured Search Folder score"),
        c.index_score,
    );
    proof {
        assert(rows_of(rows@) =~= before + place_rows(*item, *c, *scoring, *wording));
    }
}

fn push_pattern_rows(
    rows: &mut Vec<ScoreExplanationRow>,
    item: &LaunchItem,
    modifiers: &[String],
    scoring: &ScoringConfig,
    wording: &Wording,
)
    ensures
        rows_of(final(rows)@) == rows_of(old(rows)@) + pattern_rows(
            scoring.pattern_rules@,
            *item,
            text::texts(modifiers@),
            scoring::any_rule_matches(scoring.pattern_rules@, text::texts(modifiers@)),
            *wording,
        ),
{
    let ghost before = rows_of(rows@);
    let folded_path = text::fold_text(item.path.as_str());
    let any_match = scoring::any_modifier_keywords_match(
        scoring.pattern_rules.as_slice(),
        modifiers,
    );
    let ghost rules = scoring.pattern_rules@;
    let ghost wanted = pattern_rows(rules, *item, text::texts(modifiers@), any_match, *wording);
    let mut i: usize = 0;
    proof {
        assert(before + wanted.take(0) =~= before);
    }
    while i < scoring.pattern_rules.len()
        invariant
            i <= scoring.pattern_rules.len(),
            rules == scoring.pattern_rules@,
            folded_path@ == text::fold(item.path@),
            wanted == pattern_rows(rules, *item, text::texts(modifiers@), any_match, *wording),
            rows_of(rows@) == before + wanted.take(i as int),
        decreases scoring.pattern_rules.len() - i,
    {
        let rule = &scoring.pattern_rules[i];
        let applies = scoring::modifier_keywords_apply(
            rule.modifiers.as_slice(),
            modifiers,
            any_match,
        );
        let matched = applies && scoring::wildcard_rule_matches(
            rule,
            item.path.as_str(),
            folded_path.as_str(),
        );
        let condition = if !applies {
            let shown = scoring::search_folder_modifier_display(rule.modifiers.as_slice());
            wording.say_with_one("Modifier condition not met: {}", shown.as_str())
        } else if matched {
            wording.say("Matched")
        } else {
            wording.say("Not matched")
        };
        let score_text = number(rule.score);
        push_row(
            rows,
            wording.say_with_one("Pattern {}", rule.pattern.as_str()),
            condition,
            wording.say_with_one("Pattern score {}", score_text.as_str()),
            if matched {
                rule.score
            } else {
                0
            },
        );
        proof {
            assert(wanted[i as int] == pattern_row(
                rules[i as int],
                *item,
                text::texts(modifiers@),
                any_match,
                *wording,
            ));
            assert(wanted.take(i + 1) =~= wanted.take(i as int).push(wanted[i as int]));
            assert(before + wanted.take(i + 1) =~= (before + wanted.take(i as int)).push(
                wanted[i as int],
            ));
        }
        i += 1;
    }
    proof {
        assert(wanted.take(rules.len() as int) =~= wanted);
    }
}

fn append_signed(out: &mut String, sign: &str, value: i32)
    ensures
        final(out)@ == old(out)@ + sign@ + text::decimal(value as int),
{
    out.append(sign);
    let n = number(value);
    out.append(n.as_str());
}

fn push_closing_rows(
    rows: &mut Vec<ScoreExplanationRow>,
    item: &LaunchItem,
    raw_history: &Option<String>,
    c: &HeuristicScoreComponents,
    scoring: &ScoringConfig,
    wording: &Wording,
)
    requires
        c.path_penalty > i32::MIN,
    ensures
        rows_of(final(rows)@) == rows_of(old(rows)@) + closing_rows(
            *item,
            text::optional(*raw_history),
            *c,
            *scoring,
            *wording,
        ),
{
    let ghost before = rows_of(rows@);
    let raw = match raw_history {
        Some(raw) => wording.say_with_one("Raw history score {}", raw.as_str()),
        None => wording.say("Not matched"),
    };
    let ceiling = number(scoring.recent_score_ceiling);
    push_row(
        rows,
        wording.say("History raw score"),
        raw,
        wording.say_with_one("min(raw score, Recent Score Ceiling {})", ceiling.as_str()),
        c.history_score,
    );
    let age = if !scoring.recency_date_enabled {
        wording.say("Disabled")
    } else if item.modified_at_unix_seconds.is_some() {
        wording.say("Modified date available")
    } else {
        wording.say("Not matched")
    };
    push_row(
        rows,
        wording.say("Modified-date recency"),
        age,
        wording.say("100%, 50%, 25%, or 0% by age band"),
        c.recency_score,
    );
    let percent = number(arith::max_i32(scoring.folder_score_as_file_score_percent, 0));
    push_row(
        rows,
        wording.say("Folder Score As % of File Score"),
        rule_condition(
            scoring.folder_score_as_file_score_percent != 100,
            item.is_dir,
            wording.say("Item is a folder"),
            wording,
        ),
        wording.say_with_one("Folder score is {}% of file score", percent.as_str()),
        c.folder_score,
    );
    let depth = text::decimal_u64(item.relative_depth as u64);
    let step = number(arith::max_i32(scoring.path_depth_penalty, 0));
    push_row(
        rows,
        wording.say("Path Depth Penalty"),
        wording.say_with_one("Relative depth {}", depth.as_str()),
        text::cat4("-", depth.as_str(), " * ", step.as_str()),
        -c.path_penalty,
    );
    let mut formula = number(c.text_score);
    append_signed(&mut formula, " + ", c.path_score);
    append_signed(&mut formula, " + ", c.index_score);
    append_signed(&mut formula, " + ", c.pattern_score);
    append_signed(&mut formula, " + ", c.history_score);
    append_signed(&mut formula, " + ", c.recency_score);
    append_signed(&mut formula, " + ", c.folder_score);
    append_signed(&mut formula, " - ", c.path_penalty);
    push_row(
        rows,
        wording.say("Final score"),
        wording.say("Sum of contribution rows"),
        formula,
        0,
    );
    proof {
        assert(rows_of(rows@) =~= before + closing_rows(
            *item,
            text::optional(*raw_history),
            *c,
            *scoring,
            *wording,
        ));
    }
}

/// What is said above the rows of a heuristic score.
pub open spec fn heuristic_summary(wording: Wording) -> Seq<char> {
    wording.said(
        "Heuristic score uses shared ranking primitives; all enabled contributions are shown below."@,
    )
}

/// The explanation of the parts of a heuristic score. `raw_history` is the
/// notation of the item's own history score, where it has one above zero.
pub fn heuristic_score_explanation(
    item: &LaunchItem,
    spec: &SearchQuerySpec,
    raw_history: &Option<String>,
    scoring: &ScoringConfig,
    components: &HeuristicScoreComponents,
    wording: &Wording,
) -> (r: ScoreExplanation)
    requires
        components.path_penalty > i32::MIN,
    ensures
        r.ranking_kind == ResultRankingKind::Heuristic,
        r.query@ == spec.raw@,
        r.item_path@ == item.path@,
        r.search_root@ == (match item.search_root {
            Some(root) => root@,
            None => ""@,
        }),
        r.relative_depth == item.relative_depth,
        r.final_score == components.final_score,
        r.summary@ == heuristic_summary(*wording),
        rows_of(r.rows@) == heuristic_rows(
            *item,
            *spec,
            text::optional(*raw_history),
            *components,
            *scoring,
            *wording,
        ),
{
    let query = text::trim_text(spec.folded_search_text.as_str());
    let mut rows: Vec<ScoreExplanationRow> = Vec::new();
    proof {
        assert(rows_of(rows@) =~= Seq::<Row>::empty());
    }
    push_text_rows(&mut rows, item, query.as_str(), components.text_score, scoring, wording);
    push_place_rows(&mut rows, item, components, scoring, wording);
    push_pattern_rows(&mut rows, item, spec.scoring_modifiers.as_slice(), scoring, wording);
    push_closing_rows(&mut rows, item, raw_history, components, scoring, wording);
    proof {
        assert(rows_of(rows@) =~= heuristic_rows(
            *item,
            *spec,
            text::optional(*raw_history),
            *components,
            *scoring,
            *wording,
        ));
    }
    let search_root = match &item.search_root {
        Some(root) => root.clone(),
        None => "".to_owned(),
    };
    ScoreExplanation {
        ranking_kind: ResultRankingKind::Heuristic,
        query: spec.raw.clone(),
        item_path: item.path.clone(),
        search_root,
        relative_depth: item.relative_depth,
        final_score: components.final_score,
        summary: wording.say(
            "Heuristic score uses shared ranking primitives; all enabled contributions are shown below.",
        ),
        rows,
    }
}

// ---------------------------------------------------------------------------
// The rows add up
// ---------------------------------------------------------------------------

proof fn lemma_rows_sum_concat(a: Seq<Row>, b: Seq<Row>)
    ensures
        rows_sum(a + b) == rows_sum(a) + rows_sum(b),
    decreases b.len(),
{
    if b.len() == 0 {
        assert(a + b =~= a);
    } else {
        assert((a + b).drop_last() =~= a + b.drop_last());
        lemma_rows_sum_concat(a, b.drop_last());
    }
}

proof fn lemma_rows_sum_push(a: Seq<Row>, row: Row)
    ensures
        rows_sum(a.push(row)) == rows_sum(a) + row.score,
{
    assert(a.push(row).drop_last() =~= a);
}

proof fn lemma_rows_sum_zero(a: Seq<Row>)
    requires
        forall|i: int| 0 <= i < a.len() ==> (#[trigger] a[i]).score == 0,
    ensures
        rows_sum(a) == 0,
    decreases a.len(),
{
    if a.len() > 0 {
        assert forall|i: int| 0 <= i < a.drop_last().len() implies (#[trigger] a.drop_last()[i]).score
            == 0 by {
            assert(a.drop_last()[i] == a[i]);
        }
        lemma_rows_sum_zero(a.drop_last());
    }
}

proof fn lemma_pattern_rows_sum(
    rules: Seq<PatternRule>,
    item: LaunchItem,
    modifiers: Seq<Seq<char>>,
    any_match: bool,
    wording: Wording,
)
    ensures
        rows_sum(pattern_rows(rules, item, modifiers, any_match, wording)) == scoring::rules_sum(
            rules,
            modifiers,
            any_match,
            text::fold(item.path@),
            scoring::folded_file_name(item.path@),
        ),
    decreases rules.len(),
{
    if rules.len() > 0 {
        lemma_pattern_rows_sum(rules.drop_last(), item, modifiers, any_match, wording);
        let all = pattern_rows(rules, item, modifiers, any_match, wording);
        assert(all.drop_last() =~= pattern_rows(
            rules.drop_last(),
            item,
            modifiers,
            any_match,
            wording,
        ));
    }
}

proof fn lemma_four(a: Row, b: Row, c: Row, d: Row)
    ensures
        rows_sum(seq![a, b, c, d]) == a.score + b.score + c.score + d.score,
{
    reveal_with_fuel(rows_sum, 5);
    let s = seq![a, b, c, d];
    assert(s.drop_last() =~= seq![a, b, c]);
    assert(seq![a, b, c].drop_last() =~= seq![a, b]);
    assert(seq![a, b].drop_last() =~= seq![a]);
    assert(seq![a].drop_last() =~= Seq::<Row>::empty());
}

proof fn lemma_two(a: Row, b: Row)
    ensures
        rows_sum(seq![a, b]) == a.score + b.score,
{
    reveal_with_fuel(rows_sum, 3);
    assert(seq![a, b].drop_last() =~= seq![a]);
    assert(seq![a].drop_last() =~= Seq::<Row>::empty());
}

proof fn lemma_place_rows_sum(
    item: LaunchItem,
    c: HeuristicScoreComponents,
    scoring: ScoringConfig,
    wording: Wording,
)
    ensures
        rows_sum(place_rows(item, c, scoring, wording)) == c.path_score + c.index_score,
{
    let p = place_rows(item, c, scoring, wording);
    lemma_two(p[0], p[1]);
    assert(p =~= seq![p[0], p[1]]);
}

proof fn lemma_closing_rows_sum(
    item: LaunchItem,
    raw_history: Option<Seq<char>>,
    c: HeuristicScoreComponents,
    scoring: ScoringConfig,
    wording: Wording,
)
    requires
        c.path_penalty > i32::MIN,
    ensures
        rows_sum(closing_rows(item, raw_history, c, scoring, wording)) == c.history_score
            + c.recency_score + c.folder_score - c.path_penalty,
{
    let z = closing_rows(item, raw_history, c, scoring, wording);
    lemma_four(z[0], z[1], z[2], z[3]);
    assert(z.drop_last() =~= seq![z[0], z[1], z[2], z[3]]);
}

/// A number of 32 bits.
pub open spec fn fits(i: int) -> bool {
    i32::MIN <= i <= i32::MAX
}

/// What a rule adds.
pub open spec fn gain(applies: bool, bonus: i32) -> int {
    if applies {
        bonus as int
    } else {
        0
    }
}

/// The shares of a fuzzy match and the bonuses add up without reaching the
/// limits of 32 bits on the way.
pub open spec fn text_sum_fits(query: Seq<char>, candidate: Seq<char>, scoring: ScoringConfig) -> bool {
    let positions = best_positions(query, candidate, scoring);
    let query_length = fuzzy::counted_length(positions.len());
    let candidate_length = fuzzy::counted_length(candidate.len());
    let a = fuzzy::length_share(query_length, candidate_length, scoring) + fuzzy::leftmost_share(
        arith::length_i32(positions[0]),
        scoring,
    );
    let b = a + fuzzy::compact_share(
        arith::length_i32(fuzzy::adjacent_pairs(positions) as int),
        query_length,
        scoring,
    );
    let s1 = b + gain(candidate == query, scoring.exact_match_bonus);
    let s2 = s1 + gain(scoring::is_exact_word(candidate, query), scoring.exact_word_bonus);
    let s3 = s2 + gain(text::has_prefix(candidate, query), scoring.prefix_match_bonus);
    let s4 = s3 + gain(scoring::at_word_boundary(candidate, query), scoring.word_boundary_bonus);
    let s5 = s4 + gain(scoring::is_acronym(candidate, query), scoring.acronym_match_bonus);
    let s6 = s5 + gain(text::has_infix(candidate, query), scoring.consecutive_match_bonus);
    fits(a) && fits(b) && fits(s1) && fits(s2) && fits(s3) && fits(s4) && fits(s5) && fits(s6)
}

proof fn lemma_share_range(adjacent: i32, query_length: i32, candidate_length: i32, scoring: ScoringConfig)
    requires
        query_length > 0,
        adjacent >= 0,
    ensures
        fits(fuzzy::length_share(query_length, candidate_length, scoring)),
        fits(fuzzy::compact_share(adjacent, query_length, scoring)),
{
    let w = arith::max_int(scoring.length_score_weight as int, 0);
    let n = arith::sat(query_length * w) as int;
    let d = arith::max_int(candidate_length as int, 1);
    assert(query_length * w >= 0) by (nonlinear_arith)
        requires
            query_length > 0,
            w >= 0,
    ;
    assert(0 <= n / d <= n) by (nonlinear_arith)
        requires
            n >= 0,
            d >= 1,
    ;
    let v = arith::max_int(scoring.compact_match_bonus as int, 0);
    let m = arith::sat(adjacent * v) as int;
    assert(adjacent * v >= 0) by (nonlinear_arith)
        requires
            adjacent >= 0,
            v >= 0,
    ;
    if query_length > 1 {
        let e = query_length - 1;
        assert(0 <= m / e <= m) by (nonlinear_arith)
            requires
                m >= 0,
                e >= 1,
        ;
    }
}

/// The rows of a text route that counts add up to its text score, unless a sum
/// reaches the limits of 32 bits.
#[verifier::rlimit(60)]
#[verifier::spinoff_prover]
pub proof fn lemma_text_rule_rows_add_up(
    label: Seq<char>,
    query: Seq<char>,
    candidate: Seq<char>,
    scoring: ScoringConfig,
    wording: Wording,
)
    requires
        0 < query.len() <= i32::MAX,
        text::trimmed(query) == query,
        scoring::text_score(query, candidate, scoring) is Some,
        text_sum_fits(query, candidate, scoring),
    ensures
        rows_sum(text_rule_rows(
            label,
            query,
            candidate,
            scoring,
            true,
            wording,
        )) == scoring::text_score(
            query,
            candidate,
            scoring,
        )->0,
{
    fuzzy::lemma_best_start(query, candidate, scoring, candidate.len() as int);
    let start = fuzzy::best_start(query, candidate, scoring, candidate.len() as int)->0;
    fuzzy::lemma_greedy_positions(query, candidate, start);
    let positions = best_positions(query, candidate, scoring);
    let adjacent = arith::length_i32(fuzzy::adjacent_pairs(positions) as int);
    lemma_share_range(
        adjacent,
        fuzzy::counted_length(positions.len()),
        fuzzy::counted_length(candidate.len()),
        scoring,
    );
    let m = match_rows(label, query, candidate, scoring, true, wording);
    let b = bonus_rows(label, query, candidate, scoring, true, wording);
    lemma_rows_sum_concat(m, b);
    lemma_four(m[0], m[1], m[2], m[3]);
    assert(m =~= seq![m[0], m[1], m[2], m[3]]);
    lemma_four(b[0], b[1], b[2], b[3]);
    lemma_two(b[4], b[5]);
    assert(b =~= seq![b[0], b[1], b[2], b[3]] + seq![b[4], b[5]]);
    lemma_rows_sum_concat(seq![b[0], b[1], b[2], b[3]], seq![b[4], b[5]]);
}

/// The text rows of an explanation add up to the text score of an item whose
/// whole query decides, unless a sum reaches the limits of 32 bits.
pub proof fn lemma_text_rows_add_up(
    item: LaunchItem,
    query: Seq<char>,
    scoring: ScoringConfig,
    wording: Wording,
)
    requires
        0 < query.len() <= i32::MAX,
        text::trimmed(query) == query,
        scoring::text_score(query, item.folded_title@, scoring) is Some,
        whole_route(query, item.folded_title@, scoring),
        text_sum_fits(query, item.folded_title@, scoring),
        fits(
            scoring::text_score(query, item.folded_title@, scoring)->0 + gain(
                stem_is_query(item, query),
                scoring.exact_match_bonus,
            ),
        ),
        scoring::name_score(
            query,
            item.folded_title@,
            item.folded_stem@,
            item.folded_parent@,
            item.is_dir,
            scoring,
        ) == Some(
            scoring::with_bonus(
                scoring::text_score(query, item.folded_title@, scoring)->0,
                stem_is_query(item, query),
                scoring.exact_match_bonus,
            ),
        ),
    ensures
        rows_sum(
            text_rows(
                item,
                query,
                scoring::name_score(
                    query,
                    item.folded_title@,
                    item.folded_stem@,
                    item.folded_parent@,
                    item.is_dir,
                    scoring,
                )->0,
                scoring,
                wording,
            ),
        ) == scoring::name_score(
            query,
            item.folded_title@,
            item.folded_stem@,
            item.folded_parent@,
            item.is_dir,
            scoring,
        )->0,
{
    let title = item.folded_title@;
    let score = scoring::name_score(
        query,
        title,
        item.folded_stem@,
        item.folded_parent@,
        item.is_dir,
        scoring,
    )->0;
    lemma_text_rule_rows_add_up(wording.said("Whole query"@), query, title, scoring, wording);
    let a = text_rule_rows(wording.said("Whole query"@), query, title, scoring, true, wording);
    let t = token_rows(text::words(query), title, scoring, wording);
    lemma_rows_sum_zero(t);
    lemma_rows_sum_concat(a, t);
    let route = route_row(query, title, score, scoring, wording);
    lemma_rows_sum_push(a + t, route);
    let all = text_rows(item, query, score, scoring, wording);
    assert(all.drop_last() =~= (a + t).push(route));
}

/// The parts of a score add up without reaching the limits of 32 bits on the way.
pub open spec fn no_sum_saturates(
    item: LaunchItem,
    spec: SearchQuerySpec,
    text_score: i32,
    history_score: i32,
    scoring: ScoringConfig,
) -> bool {
    let modifiers = text::texts(spec.scoring_modifiers@);
    let pattern = scoring::rules_sum(
        scoring.pattern_rules@,
        modifiers,
        scoring::any_rule_matches(scoring.pattern_rules@, modifiers),
        text::fold(item.path@),
        scoring::folded_file_name(item.path@),
    );
    let a = text_score + scoring::parent_score(
        spec.folded_search_text@,
        item.folded_title@,
        item.folded_parent@,
        scoring,
    );
    let b = a + item.index_score;
    let c = b + pattern;
    let d = c + history_score;
    let e = d + breakdown::recency_part(
        item.modified_at_unix_seconds,
        spec.scoring_time_unix_seconds,
        scoring,
    );
    let f = e - breakdown::depth_penalty(item.relative_depth as int, scoring);
    fits(pattern) && fits(a) && fits(b) && fits(c) && fits(d) && fits(e) && fits(f)
}

/// The rows of an explanation add up to the final score, where the text rows
/// add up to the text score and no sum reaches the limits of 32 bits.
pub proof fn lemma_explanation_adds_up(
    item: LaunchItem,
    spec: SearchQuerySpec,
    raw_history: Option<Seq<char>>,
    text_score: i32,
    history_score: i32,
    scoring: ScoringConfig,
    wording: Wording,
)
    requires
        rows_sum(
            text_rows(item, text::trimmed(spec.folded_search_text@), text_score, scoring, wording),
        ) == text_score,
        scoring.pattern_rules@.len() <= 0xffff_ffff,
        no_sum_saturates(item, spec, text_score, history_score, scoring),
    ensures
        ({
            let c = breakdown::components_of(
                item,
                spec.folded_search_text@,
                spec.scoring_time_unix_seconds,
                text_score,
                scoring::pattern_total(
                    scoring.pattern_rules@,
                    text::texts(spec.scoring_modifiers@),
                    item.path@,
                ),
                history_score,
                scoring,
            );
            rows_sum(heuristic_rows(item, spec, raw_history, c, scoring, wording)) == c.final_score
        }),
{
    let modifiers = text::texts(spec.scoring_modifiers@);
    let any_match = scoring::any_rule_matches(scoring.pattern_rules@, modifiers);
    let c = breakdown::components_of(
        item,
        spec.folded_search_text@,
        spec.scoring_time_unix_seconds,
        text_score,
        scoring::pattern_total(scoring.pattern_rules@, modifiers, item.path@),
        history_score,
        scoring,
    );
    scoring::lemma_pattern_total_clamps_once(
        scoring.pattern_rules@,
        modifiers,
        any_match,
        text::fold(item.path@),
        scoring::folded_file_name(item.path@),
    );
    lemma_pattern_rows_sum(scoring.pattern_rules@, item, modifiers, any_match, wording);
    let t = text_rows(item, text::trimmed(spec.folded_search_text@), text_score, scoring, wording);
    let p = place_rows(item, c, scoring, wording);
    let r = pattern_rows(scoring.pattern_rules@, item, modifiers, any_match, wording);
    let z = closing_rows(item, raw_history, c, scoring, wording);
    lemma_rows_sum_concat(t, p);
    lemma_rows_sum_concat(t + p, r);
    lemma_rows_sum_concat(t + p + r, z);
    lemma_place_rows_sum(item, c, scoring, wording);
    lemma_closing_rows_sum(item, raw_history, c, scoring, wording);
    assert(0 <= breakdown::depth_penalty(item.relative_depth as int, scoring)) by {
        let step = arith::max_int(scoring.path_depth_penalty as int, 0);
        assert(item.relative_depth * step >= 0) by (nonlinear_arith)
            requires
                step >= 0,
        ;
    }
    let file = breakdown::file_sum(
        c.text_score,
        c.path_score,
        c.index_score,
        c.pattern_score,
        c.history_score,
        c.recency_score,
        c.path_penalty,
    );
    breakdown::lemma_kind_sum(item.is_dir, file, scoring);
}

/// What the text rows of an explanation leave out. Where the whole query decides by its
/// rows: an average over title and folder that beats it, as the rows know the title alone,
/// and sums that reach the limits of 32 bits. Where the average of the words decides: the
/// exact bonus for the stem on top of it, as it already holds it.
pub open spec fn text_rows_are_complete(
    item: LaunchItem,
    query: Seq<char>,
    scoring: ScoringConfig,
) -> bool {
    let title = item.folded_title@;
    if whole_route(query, title, scoring) {
        &&& query.len() <= i32::MAX
        &&& scoring::text_score(query, title, scoring) matches Some(whole)
        &&& (scoring::token_match(text::words(query), title, item.folded_parent@, scoring) matches Some((
            average,
            _,
        )) ==> average <= whole)
        &&& text_sum_fits(query, title, scoring)
        &&& fits(whole + gain(stem_is_query(item, query), scoring.exact_match_bonus))
    } else {
        !stem_is_query(item, query) || scoring.exact_match_bonus == 0
    }
}

/// The text rows of an explanation add up to the text score of an item, whichever route
/// decides: the whole query, the average of its words, or a blank query.
pub proof fn lemma_text_rows_add_up_on_any_route(
    item: LaunchItem,
    query: Seq<char>,
    text_score: i32,
    scoring: ScoringConfig,
    wording: Wording,
)
    requires
        text::trimmed(query) == query,
        scoring::name_score(
            query,
            item.folded_title@,
            item.folded_stem@,
            item.folded_parent@,
            item.is_dir,
            scoring,
        ) == Some(text_score),
        query.len() > 0 ==> text_rows_are_complete(item, query, scoring),
    ensures
        rows_sum(text_rows(item, query, text_score, scoring, wording)) == text_score,
{
    let title = item.folded_title@;
    let words = text::words(query);
    let rows = text_rows(item, query, text_score, scoring, wording);
    if query.len() == 0 {
        assert(rows.drop_last() =~= Seq::<Row>::empty());
        assert(rows_sum(rows.drop_last()) == 0);
    } else {
        if whole_route(query, title, scoring) {
            lemma_text_rows_add_up(item, query, scoring, wording);
        } else {
            let a = text_rule_rows(
                wording.said("Whole query"@),
                query,
                title,
                scoring,
                false,
                wording,
            );
            let t = token_rows(words, title, scoring, wording);
            assert forall|i: int| 0 <= i < a.len() implies (#[trigger] a[i]).score == 0 by {
                let m = match_rows(
                    wording.said("Whole query"@),
                    query,
                    title,
                    scoring,
                    false,
                    wording,
                );
                let b = bonus_rows(
                    wording.said("Whole query"@),
                    query,
                    title,
                    scoring,
                    false,
                    wording,
                );
                if i < m.len() {
                    assert(a[i] == m[i]);
                } else if i < m.len() + b.len() {
                    assert(a[i] == b[i - m.len()]);
                }
            }
            lemma_rows_sum_zero(a);
            lemma_rows_sum_zero(t);
            lemma_rows_sum_concat(a, t);
            let route = route_row(query, title, text_score, scoring, wording);
            lemma_rows_sum_push(a + t, route);
            assert(rows.drop_last() =~= (a + t).push(route));
        }
    }
}

/// The rows of the explanation of an item add up to its final score, whichever route
/// decides, but for what text rows leave out and sums that reach the limits of 32 bits.
pub proof fn lemma_heuristic_rows_add_up(
    item: LaunchItem,
    spec: SearchQuerySpec,
    raw_history: Option<Seq<char>>,
    text_score: i32,
    history_score: i32,
    scoring: ScoringConfig,
    wording: Wording,
)
    requires
        scoring::name_score(
            spec.folded_search_text@,
            item.folded_title@,
            item.folded_stem@,
            item.folded_parent@,
            item.is_dir,
            scoring,
        ) == Some(text_score),
        text::trimmed(spec.folded_search_text@).len() > 0 ==> text_rows_are_complete(
            item,
            text::trimmed(spec.folded_search_text@),
            scoring,
        ),
        scoring.pattern_rules@.len() <= 0xffff_ffff,
        no_sum_saturates(item, spec, text_score, history_score, scoring),
    ensures
        ({
            let c = breakdown::components_of(
                item,
                spec.folded_search_text@,
                spec.scoring_time_unix_seconds,
                text_score,
                scoring::pattern_total(
                    scoring.pattern_rules@,
                    text::texts(spec.scoring_modifiers@),
                    item.path@,
                ),
                history_score,
                scoring,
            );
            rows_sum(heuristic_rows(item, spec, raw_history, c, scoring, wording)) == c.final_score
        }),
{
    let query = text::trimmed(spec.folded_search_text@);
    text::lemma_trimmed_idempotent(spec.folded_search_text@);
    scoring::lemma_name_score_trimmed(
        spec.folded_search_text@,
        item.folded_title@,
        item.folded_stem@,
        item.folded_parent@,
        item.is_dir,
        scoring,
    );
    lemma_text_rows_add_up_on_any_route(item, query, text_score, scoring, wording);
    lemma_explanation_adds_up(item, spec, raw_history, text_score, history_score, scoring, wording);
}

// ---------------------------------------------------------------------------
// Results that bypass the heuristic
// ---------------------------------------------------------------------------

/// The summary of a kind of ranking.
pub open spec fn special_summary(kind: ResultRankingKind, wording: Wording) -> Seq<char> {
    match kind {
        ResultRankingKind::Plugin => wording.said(
            "Plugin-provided ordering is used; heuristic scoring is bypassed."@,
        ),
        ResultRankingKind::RecentOrder => wording.said(
            "Blank-query results follow recent launch order; heuristic scoring is bypassed."@,
        ),
        ResultRankingKind::QueryLaunchRule => wording.said(
            "The matching Query Launch Rule is pinned ahead of heuristic results."@,
        ),
        ResultRankingKind::Heuristic => wording.said("Heuristic scoring is active."@),
    }
}

/// The one row of a kind of ranking.
pub open spec fn special_row(kind: ResultRankingKind, score: i32, wording: Wording) -> Row {
    match kind {
        ResultRankingKind::Plugin => Row {
            rule: wording.said("Plugin priority"@),
            condition: wording.said("Plugin result"@),
            formula: wording.said("Use plugin-provided score"@),
            score,
        },
        ResultRankingKind::RecentOrder => Row {
            rule: wording.said("Recent order"@),
            condition: wording.said("Blank query"@),
            formula: wording.said("Preserve recent_items.txt order"@),
            score,
        },
        ResultRankingKind::QueryLaunchRule => Row {
            rule: wording.said("Query Launch Rule priority"@),
            condition: wording.said("Exact normalized query rule matched"@),
            formula: wording.said("Priority tier before heuristic score sorting"@),
            score,
        },
        ResultRankingKind::Heuristic => Row {
            rule: wording.said("Heuristic score"@),
            condition: wording.said("Normal search result"@),
            formula: wording.said("Sum enabled scoring contributions"@),
            score,
        },
    }
}

/// An explanation with one row.
pub open spec fn is_special(
    e: ScoreExplanation,
    kind: ResultRankingKind,
    query: Seq<char>,
    item_path: Seq<char>,
    search_root: Seq<char>,
    relative_depth: usize,
    final_score: i32,
    wording: Wording,
) -> bool {
    &&& e.ranking_kind == kind
    &&& e.query@ == query
    &&& e.item_path@ == item_path
    &&& e.search_root@ == search_root
    &&& e.relative_depth == relative_depth
    &&& e.final_score == final_score
    &&& e.summary@ == special_summary(kind, wording)
    &&& rows_of(e.rows@) == seq![special_row(kind, final_score, wording)]
}

/// The explanation of a result that a kind of ranking places.
pub fn special_score_explanation(
    ranking_kind: ResultRankingKind,
    query: &str,
    item_path: &str,
    final_score: i32,
    wording: &Wording,
) -> (r: ScoreExplanation)
    ensures
        is_special(r, ranking_kind, query@, item_path@, ""@, 0, final_score, *wording),
        rows_sum(rows_of(r.rows@)) == final_score,
{
    let (summary, rule, condition, formula) = match ranking_kind {
        ResultRankingKind::Plugin => (
            "Plugin-provided ordering is used; heuristic scoring is bypassed.",
            "Plugin priority",
            "Plugin result",
            "Use plugin-provided score",
        ),
        ResultRankingKind::RecentOrder => (
            "Blank-query results follow recent launch order; heuristic scoring is bypassed.",
            "Recent order",
            "Blank query",
            "Preserve recent_items.txt order",
        ),
        ResultRankingKind::QueryLaunchRule => (
            "The matching Query Launch Rule is pinned ahead of heuristic results.",
            "Query Launch Rule priority",
            "Exact normalized query rule matched",
            "Priority tier before heuristic score sorting",
        ),
        ResultRankingKind::Heuristic => (
            "Heuristic scoring is active.",
            "Heuristic score",
            "Normal search result",
            "Sum enabled scoring contributions",
        ),
    };
    let mut rows: Vec<ScoreExplanationRow> = Vec::new();
    push_row(
        &mut rows,
        wording.say(rule),
        wording.say(condition),
        wording.say(formula),
        final_score,
    );
    proof {
        let row = special_row(ranking_kind, final_score, *wording);
        assert(rows_of(rows@) =~= seq![row]);
        assert(seq![row].drop_last() =~= Seq::<Row>::empty());
        reveal_with_fuel(rows_sum, 2);
    }
    ScoreExplanation {
        ranking_kind,
        query: query.to_owned(),
        item_path: item_path.to_owned(),
        search_root: "".to_owned(),
        relative_depth: 0,
        final_score,
        summary: wording.say(summary),
        rows,
    }
}

/// The explanation of an item that a kind of ranking places.
pub fn special_item_score_explanation(
    ranking_kind: ResultRankingKind,
    query: &str,
    item: &LaunchItem,
    final_score: i32,
    wording: &Wording,
) -> (r: ScoreExplanation)
    ensures
        is_special(
            r,
            ranking_kind,
            query@,
            item.path@,
            match item.search_root {
                Some(root) => root@,
                None => ""@,
            },
            item.relative_depth,
            final_score,
            *wording,
        ),
{
    let plain = special_score_explanation(
        ranking_kind,
        query,
        item.path.as_str(),
        final_score,
        wording,
    );
    let search_root = match &item.search_root {
        Some(root) => root.clone(),
        None => "".to_owned(),
    };
    ScoreExplanation {
        ranking_kind: plain.ranking_kind,
        query: plain.query,
        item_path: plain.item_path,
        search_root,
        relative_depth: item.relative_depth,
        final_score: plain.final_score,
        summary: plain.summary,
        rows: plain.rows,
    }
}

// ---------------------------------------------------------------------------
// Copies
// ---------------------------------------------------------------------------

/// Two explanations that say the same.
pub open spec fn same_explanation(a: ScoreExplanation, b: ScoreExplanation) -> bool {
    &&& a.ranking_kind == b.ranking_kind
    &&& a.query@ == b.query@
    &&& a.item_path@ == b.item_path@
    &&& a.search_root@ == b.search_root@
    &&& a.relative_depth == b.relative_depth
    &&& a.final_score == b.final_score
    &&& a.summary@ == b.summary@
    &&& rows_of(a.rows@) == rows_of(b.rows@)
}

impl ScoreExplanation {
    /// A copy of the explanation.
    pub fn copy(&self) -> (r: ScoreExplanation)
        ensures
            same_explanation(r, *self),
    {
        let mut rows: Vec<ScoreExplanationRow> = Vec::new();
        let mut i: usize = 0;
        while i < self.rows.len()
            invariant
                i <= self.rows.len(),
                rows_of(rows@) == rows_of(self.rows@).take(i as int),
            decreases self.rows.len() - i,
        {
            let row = &self.rows[i];
            push_row(
                &mut rows,
                row.rule.clone(),
                row.input_condition.clone(),
                row.formula.clone(),
                row.score,
            );
            proof {
                let all = rows_of(self.rows@);
                assert(all[i as int] == self.rows@[i as int]@);
                assert(all.take(i + 1) =~= all.take(i as int).push(all[i as int]));
            }
            i += 1;
        }
        proof {
            let all = rows_of(self.rows@);
            assert(all.take(self.rows@.len() as int) =~= all);
        }
        ScoreExplanation {
            ranking_kind: self.ranking_kind,
            query: self.query.clone(),
            item_path: self.item_path.clone(),
            search_root: self.search_root.clone(),
            relative_depth: self.relative_depth,
            final_score: self.final_score,
            summary: self.summary.clone(),
            rows,
        }
    }
}

} // verus!
