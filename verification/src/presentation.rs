//! How results and their scores are shown.

use crate::explanation;
use crate::explanation::{ScoreExplanation, ScoreExplanationRow};
use crate::results::{LaunchTarget, SearchResult};
use crate::shell;
use crate::text;
use crate::types::ResultRankingKind;
use crate::wording;
use crate::wording::Wording;
use vstd::prelude::*;

verus! {

// ---------------------------------------------------------------------------
// Rows
// ---------------------------------------------------------------------------

/// The text for where a result leads, where a shortcut was followed or not; none for
/// the action of a plugin.
pub open spec fn target_text(result: SearchResult, followed: Option<Seq<char>>) -> Option<Seq<char>> {
    match result.target {
        LaunchTarget::Path(path) => Some(
            match followed {
                Some(target) => if shell::has_extension(path@, "lnk"@) || shell::has_extension(
                    path@,
                    "url"@,
                ) {
                    target
                } else {
                    path@
                },
                None => path@,
            },
        ),
        LaunchTarget::Plugin(_) => None,
    }
}

/// The text for where a result leads.
pub fn result_target_text(result: &SearchResult, followed: &Option<String>) -> (r: Option<String>)
    ensures
        text::optional(r) == target_text(*result, text::optional(*followed)),
{
    match &result.target {
        LaunchTarget::Path(path) => {
            if shell::is_shortcut_file(path.as_str()) {
                if let Some(target) = followed {
                    return Some(target.clone());
                }
            }
            Some(path.clone())
        },
        LaunchTarget::Plugin(_) => None,
    }
}

/// What tells the results of plugins apart.
pub open spec fn plugin_signature(result: SearchResult) -> Seq<char> {
    "plugin:"@ + result.title@ + ":"@ + result.subtitle@ + ":"@ + text::decimal(result.score as int)
}

/// What tells the results of plugins apart.
pub fn plugin_result_signature(result: &SearchResult) -> (r: String)
    ensures
        r@ == plugin_signature(*result),
{
    let score = text::decimal_i64(result.score as i64);
    text::cat6("plugin:", result.title.as_str(), ":", result.subtitle.as_str(), ":", score.as_str())
}

/// What is seen of a result.
#[derive(Debug, PartialEq, Eq)]
pub struct VisibleResultSignature {
    pub title: String,
    pub subtitle: String,
    pub target: String,
    pub is_dir: bool,
    pub from_history: bool,
    pub from_query_launch_rule: bool,
    pub ranking_kind: ResultRankingKind,
    pub display_score: i32,
    pub score_detail: String,
    pub score: i32,
}

/// What is seen of a result.
pub open spec fn is_seen_as(
    seen: VisibleResultSignature,
    result: SearchResult,
    followed: Option<Seq<char>>,
) -> bool {
    &&& seen.title@ == result.title@
    &&& seen.subtitle@ == result.subtitle@
    &&& seen.target@ == (match target_text(result, followed) {
        Some(target) => target,
        None => plugin_signature(result),
    })
    &&& seen.is_dir == result.is_dir
    &&& seen.from_history == result.from_history
    &&& seen.from_query_launch_rule == result.from_query_launch_rule
    &&& seen.ranking_kind == result.ranking_kind
    &&& seen.display_score == result.display_score
    &&& seen.score_detail@ == result.score_detail@
    &&& seen.score == result.score
}

/// What is seen of the first results, each with where its shortcut leads.
pub fn visible_results_signature(results: &[SearchResult], followed: &[Option<String>], limit: usize) -> (r:
    Vec<VisibleResultSignature>)
    requires
        followed@.len() >= results@.len() || followed@.len() >= limit,
    ensures
        r@.len() == (if limit < results@.len() {
            limit as nat
        } else {
            results@.len()
        }),
        forall|i: int|
            0 <= i < r@.len() ==> is_seen_as(
                #[trigger] r@[i],
                results@[i],
                text::optional(followed@[i]),
            ),
{
    let count: usize = if limit < results.len() {
        limit
    } else {
        results.len()
    };
    let mut out: Vec<VisibleResultSignature> = Vec::new();
    let mut i: usize = 0;
    while i < count
        invariant
            i <= count <= results.len(),
            count <= followed@.len(),
            out@.len() == i,
            forall|k: int|
                0 <= k < i ==> is_seen_as(
                    #[trigger] out@[k],
                    results@[k],
                    text::optional(followed@[k]),
                ),
        decreases count - i,
    {
        let result = &results[i];
        let target: String = match result_target_text(result, &followed[i]) {
            Some(target) => target,
            None => plugin_result_signature(result),
        };
        out.push(
            VisibleResultSignature {
                title: result.title.clone(),
                subtitle: result.subtitle.clone(),
                target,
                is_dir: result.is_dir,
                from_history: result.from_history,
                from_query_launch_rule: result.from_query_launch_rule,
                ranking_kind: result.ranking_kind,
                display_score: result.display_score,
                score_detail: result.score_detail.clone(),
                score: result.score,
            },
        );
        i += 1;
    }
    out
}

/// The score of a result as it is shown.
pub open spec fn score_label(result: SearchResult) -> Seq<char> {
    if result.from_query_launch_rule {
        "*"@
    } else {
        text::decimal(result.display_score as int)
    }
}

/// The score of a result as it is shown.
pub fn result_score_label(result: &SearchResult) -> (r: String)
    ensures
        r@ == score_label(*result),
{
    if result.from_query_launch_rule {
        "*".to_owned()
    } else {
        text::decimal_i64(result.display_score as i64)
    }
}

/// A detail is a sum that can be shown.
pub open spec fn shows_sum(detail: Seq<char>) -> bool {
    detail.len() > 0 && detail != "recent order"@ && detail != "starred"@ && detail != "plugin"@
        && text::has_infix(detail, " + "@) && text::has_infix(detail, " = "@)
}

/// The text behind a result for how its score came about, where it is asked for.
pub fn result_score_breakdown_tooltip_text_for_setting(result: &SearchResult, show: bool) -> (r: Option<
    String,
>)
    ensures
        text::optional(r) == (if show && !(result.target is Plugin) && shows_sum(
            text::trimmed(result.score_detail@),
        ) {
            Some(text::trimmed(result.score_detail@))
        } else {
            None
        }),
{
    if !show {
        return None;
    }
    let detail = text::trim_text(result.score_detail.as_str());
    let d = detail.as_str();
    if result.is_alias_result() || d.is_empty() {
        return None;
    }
    if text::same_text(d, "recent order") || text::same_text(d, "starred") || text::same_text(
        d,
        "plugin",
    ) {
        return None;
    }
    let chars = text::chars_of(d);
    let plus = text::chars_of(" + ");
    let equals = text::chars_of(" = ");
    if text::contains_chars(chars.as_slice(), plus.as_slice()) && text::contains_chars(
        chars.as_slice(),
        equals.as_slice(),
    ) {
        Some(detail)
    } else {
        None
    }
}

/// The breakdown of a score in brackets, where it is asked for.
pub open spec fn breakdown_shown(result: SearchResult, show: bool) -> Seq<char> {
    if show && result.score_detail@.len() > 0 {
        " ("@ + result.score_detail@ + ")"@
    } else {
        Seq::empty()
    }
}

/// The breakdown of a score in brackets.
fn breakdown_text(result: &SearchResult, show: bool) -> (r: String)
    ensures
        r@ == breakdown_shown(*result, show),
{
    if show && !result.score_detail.as_str().is_empty() {
        text::cat3(" (", result.score_detail.as_str(), ")")
    } else {
        let none = String::new();
        proof {
            assert(none@ =~= Seq::<char>::empty());
        }
        none
    }
}

/// The second line of a result.
pub fn result_detail_text(result: &SearchResult, show_score_breakdown: bool) -> (r: String)
    ensures
        r@ == (if result.target is Plugin || result.score_detail@ == "recent order"@ {
            result.subtitle@
        } else {
            result.subtitle@ + " - score "@ + score_label(*result) + breakdown_shown(
                *result,
                show_score_breakdown,
            )
        }),
{
    if result.is_alias_result() || text::same_text(result.score_detail.as_str(), "recent order") {
        return result.subtitle.clone();
    }
    let breakdown = breakdown_text(result, show_score_breakdown);
    let label = result_score_label(result);
    text::cat4(result.subtitle.as_str(), " - score ", label.as_str(), breakdown.as_str())
}

/// A number with a space before it where it has one digit.
pub open spec fn padded(n: int) -> Seq<char> {
    if text::decimal(n).len() < 2 {
        " "@ + text::decimal(n)
    } else {
        text::decimal(n)
    }
}

/// A number with a space before it where it has one digit.
fn padded_number(n: u64) -> (r: String)
    ensures
        r@ == padded(n as int),
{
    let number = text::decimal_u64(n);
    let chars = text::chars_of(number.as_str());
    if chars.len() < 2 {
        text::cat2(" ", number.as_str())
    } else {
        number
    }
}

/// The line of a result in a plain list.
pub open spec fn list_text(index: int, result: SearchResult, show: bool) -> Seq<char> {
    let both = result.title@ + "    -    "@ + result.subtitle@;
    if result.target is Plugin {
        both
    } else if result.score_detail@ == "recent order"@ {
        padded(index + 1) + ".  "@ + both
    } else {
        padded(index + 1) + ".  "@ + both + "    [score "@ + score_label(result) + breakdown_shown(
            result,
            show,
        ) + "]"@
    }
}

/// The line of a result in a plain list.
pub fn result_list_display_text(index: usize, result: &SearchResult, show_score_breakdown: bool) -> (r:
    String)
    requires
        index < usize::MAX,
    ensures
        r@ == list_text(index as int, *result, show_score_breakdown),
{
    let both = text::cat3(result.title.as_str(), "    -    ", result.subtitle.as_str());
    if result.is_alias_result() {
        return both;
    }
    let number = padded_number((index + 1) as u64);
    let line = text::cat3(number.as_str(), ".  ", both.as_str());
    if text::same_text(result.score_detail.as_str(), "recent order") {
        return line;
    }
    let label = result_score_label(result);
    let breakdown = breakdown_text(result, show_score_breakdown);
    text::cat5(line.as_str(), "    [score ", label.as_str(), breakdown.as_str(), "]")
}

// ---------------------------------------------------------------------------
// Explanations
// ---------------------------------------------------------------------------

/// The name of a kind of ranking.
pub open spec fn kind_text(kind: ResultRankingKind) -> Seq<char> {
    match kind {
        ResultRankingKind::Plugin => "Plugin"@,
        ResultRankingKind::RecentOrder => "Recent order"@,
        ResultRankingKind::QueryLaunchRule => "Query Launch Rule"@,
        ResultRankingKind::Heuristic => "Heuristic"@,
    }
}

/// Says the name of a kind of ranking.
pub fn ranking_kind_text(kind: ResultRankingKind, wording: &Wording) -> (r: String)
    ensures
        r@ == wording.said(kind_text(kind)),
        wording.is_source() ==> r@ == kind_text(kind),
{
    match kind {
        ResultRankingKind::Plugin => wording.say("Plugin"),
        ResultRankingKind::RecentOrder => wording.say("Recent order"),
        ResultRankingKind::QueryLaunchRule => wording.say("Query Launch Rule"),
        ResultRankingKind::Heuristic => wording.say("Heuristic"),
    }
}

/// A text, or another in the place of an empty one.
pub open spec fn text_or(s: Seq<char>, otherwise: Seq<char>) -> Seq<char> {
    if s.len() == 0 {
        otherwise
    } else {
        s
    }
}

/// A text, or another in the place of an empty one.
fn or_text<'a>(s: &'a str, otherwise: &'a str) -> (r: &'a str)
    ensures
        r@ == text_or(s@, otherwise@),
{
    if s.is_empty() {
        otherwise
    } else {
        s
    }
}

/// The line of a row of an explanation.
pub open spec fn row_line(row: ScoreExplanationRow) -> Seq<char> {
    row.rule@ + "\t"@ + row.input_condition@ + "\t"@ + row.formula@ + "\t"@ + text::decimal(
        row.score as int,
    )
}

/// The lines of an explanation.
pub open spec fn explanation_lines(e: ScoreExplanation, wording: Wording) -> Seq<Seq<char>> {
    seq![
        wording.said_with("Ranking: {}"@, seq![wording.said(kind_text(e.ranking_kind))]),
        wording.said_with("Query: {}"@, seq![e.query@]),
        wording.said_with("Item path: {}"@, seq![e.item_path@]),
        wording.said_with(
            "Search Folder root: {}"@,
            seq![text_or(e.search_root@, wording.said("N/A"@))],
        ),
        wording.said_with("Relative depth: {}"@, seq![text::decimal(e.relative_depth as int)]),
        wording.said_with("Final score: {}"@, seq![text::decimal(e.final_score as int)]),
        Seq::empty(),
        wording.said("Rule"@) + "\t"@ + wording.said("Input / Condition"@) + "\t"@ + wording.said(
            "Formula"@,
        ) + "\t"@ + wording.said("Score"@),
    ] + Seq::new(e.rows@.len(), |i: int| row_line(e.rows@[i]))
}

/// The lines of an explanation as the program has them.
pub open spec fn source_lines(e: ScoreExplanation) -> Seq<Seq<char>> {
    seq![
        "Ranking: "@ + kind_text(e.ranking_kind),
        "Query: "@ + e.query@,
        "Item path: "@ + e.item_path@,
        "Search Folder root: "@ + text_or(e.search_root@, "N/A"@),
        "Relative depth: "@ + text::decimal(e.relative_depth as int),
        "Final score: "@ + text::decimal(e.final_score as int),
        Seq::empty(),
        "Rule"@ + "\t"@ + "Input / Condition"@ + "\t"@ + "Formula"@ + "\t"@ + "Score"@,
    ] + Seq::new(e.rows@.len(), |i: int| row_line(e.rows@[i]))
}

/// Without phrases the lines of an explanation are as the program has them.
pub proof fn lemma_lines_in_the_source_language(e: ScoreExplanation, wording: Wording)
    requires
        wording.is_source(),
    ensures
        explanation_lines(e, wording) == source_lines(e),
{
    reveal_strlit("{}");
    reveal_strlit("Ranking: {}");
    reveal_strlit("Ranking: ");
    reveal_strlit("Query: {}");
    reveal_strlit("Query: ");
    reveal_strlit("Item path: {}");
    reveal_strlit("Item path: ");
    reveal_strlit("Search Folder root: {}");
    reveal_strlit("Search Folder root: ");
    reveal_strlit("Relative depth: {}");
    reveal_strlit("Relative depth: ");
    reveal_strlit("Final score: {}");
    reveal_strlit("Final score: ");
    assert("Ranking: {}"@ =~= "Ranking: "@ + "{}"@);
    assert("Query: {}"@ =~= "Query: "@ + "{}"@);
    assert("Item path: {}"@ =~= "Item path: "@ + "{}"@);
    assert("Search Folder root: {}"@ =~= "Search Folder root: "@ + "{}"@);
    assert("Relative depth: {}"@ =~= "Relative depth: "@ + "{}"@);
    assert("Final score: {}"@ =~= "Final score: "@ + "{}"@);
    wording::lemma_source_one(
        wording,
        "Ranking: {}"@,
        "Ranking: "@,
        wording.said(kind_text(e.ranking_kind)),
    );
    wording::lemma_source_one(wording, "Query: {}"@, "Query: "@, e.query@);
    wording::lemma_source_one(wording, "Item path: {}"@, "Item path: "@, e.item_path@);
    wording::lemma_source_one(
        wording,
        "Search Folder root: {}"@,
        "Search Folder root: "@,
        text_or(e.search_root@, wording.said("N/A"@)),
    );
    wording::lemma_source_one(
        wording,
        "Relative depth: {}"@,
        "Relative depth: "@,
        text::decimal(e.relative_depth as int),
    );
    wording::lemma_source_one(
        wording,
        "Final score: {}"@,
        "Final score: "@,
        text::decimal(e.final_score as int),
    );
    assert(explanation_lines(e, wording) =~= source_lines(e));
}

/// An explanation as a text to copy.
pub fn score_explanation_text(e: &ScoreExplanation, wording: &Wording) -> (r: String)
    ensures
        r@ == text::join(explanation_lines(*e, *wording), "\r\n"@),
        wording.is_source() ==> r@ == text::join(source_lines(*e), "\r\n"@),
{
    let depth = text::decimal_u64(e.relative_depth as u64);
    let score = text::decimal_i64(e.final_score as i64);
    let nothing = wording.say("N/A");
    let mut lines: Vec<String> = Vec::new();
    lines.push(
        wording.say_with_one("Ranking: {}", ranking_kind_text(e.ranking_kind, wording).as_str()),
    );
    lines.push(wording.say_with_one("Query: {}", e.query.as_str()));
    lines.push(wording.say_with_one("Item path: {}", e.item_path.as_str()));
    lines.push(
        wording.say_with_one(
            "Search Folder root: {}",
            or_text(e.search_root.as_str(), nothing.as_str()),
        ),
    );
    lines.push(wording.say_with_one("Relative depth: {}", depth.as_str()));
    lines.push(wording.say_with_one("Final score: {}", score.as_str()));
    lines.push(String::new());
    lines.push(
        text::cat7(
            wording.say("Rule").as_str(),
            "\t",
            wording.say("Input / Condition").as_str(),
            "\t",
            wording.say("Formula").as_str(),
            "\t",
            wording.say("Score").as_str(),
        ),
    );
    let ghost all = explanation_lines(*e, *wording);
    proof {
        if wording.is_source() {
            lemma_lines_in_the_source_language(*e, *wording);
        }
        assert(lines@[6]@ =~= Seq::<char>::empty());
        assert(text::texts(lines@) =~= all.take(8));
    }
    let mut i: usize = 0;
    while i < e.rows.len()
        invariant
            i <= e.rows.len(),
            all == explanation_lines(*e, *wording),
            text::texts(lines@) == all.take(8 + i),
        decreases e.rows.len() - i,
    {
        let row = &e.rows[i];
        let score_text = text::decimal_i64(row.score as i64);
        let ghost before = lines@;
        lines.push(
            text::cat7(
                row.rule.as_str(),
                "\t",
                row.input_condition.as_str(),
                "\t",
                row.formula.as_str(),
                "\t",
                score_text.as_str(),
            ),
        );
        proof {
            assert(all[8 + i] == row_line(e.rows@[i as int]));
            assert(text::texts(lines@) =~= text::texts(before).push(lines@.last()@));
            assert(text::texts(lines@) =~= all.take(8 + i + 1));
        }
        i += 1;
    }
    proof {
        assert(all.take(8 + i) =~= all);
    }
    text::join_texts(lines.as_slice(), "\r\n")
}

/// The head above an explanation.
pub open spec fn header_text(e: ScoreExplanation, wording: Wording) -> Seq<char> {
    wording.said_with(
        "{}\r\nQuery: {}\r\nItem: {}"@,
        seq![
            e.summary@,
            text_or(e.query@, wording.said("(blank)"@)),
            text_or(e.item_path@, wording.said("N/A"@)),
        ],
    ) + wording.said_with(
        "\r\nSearch Folder: {}    Relative depth: {}    Final score: {}"@,
        seq![
            text_or(e.search_root@, wording.said("N/A"@)),
            text::decimal(e.relative_depth as int),
            text::decimal(e.final_score as int),
        ],
    )
}

/// The head above an explanation as the program has it.
pub open spec fn source_header(e: ScoreExplanation) -> Seq<char> {
    (e.summary@ + "\r\nQuery: "@ + text_or(e.query@, "(blank)"@) + "\r\nItem: "@ + text_or(
        e.item_path@,
        "N/A"@,
    )) + ("\r\nSearch Folder: "@ + text_or(e.search_root@, "N/A"@) + "    Relative depth: "@
        + text::decimal(e.relative_depth as int) + "    Final score: "@ + text::decimal(
        e.final_score as int,
    ))
}

/// Without phrases the head above an explanation is as the program has it.
pub proof fn lemma_header_in_the_source_language(e: ScoreExplanation, wording: Wording)
    requires
        wording.is_source(),
    ensures
        header_text(e, wording) == source_header(e),
{
    reveal_strlit("{}");
    reveal_strlit("{}\r\nQuery: {}\r\nItem: {}");
    reveal_strlit("\r\nQuery: ");
    reveal_strlit("\r\nItem: ");
    reveal_strlit("\r\nSearch Folder: {}    Relative depth: {}    Final score: {}");
    reveal_strlit("\r\nSearch Folder: ");
    reveal_strlit("    Relative depth: ");
    reveal_strlit("    Final score: ");
    let none = Seq::<char>::empty();
    let first = seq![
        e.summary@,
        text_or(e.query@, wording.said("(blank)"@)),
        text_or(e.item_path@, wording.said("N/A"@)),
    ];
    assert("{}\r\nQuery: {}\r\nItem: {}"@ =~= none + "{}"@ + "\r\nQuery: "@ + "{}"@
        + "\r\nItem: "@ + "{}"@);
    wording::lemma_source_three(
        wording,
        "{}\r\nQuery: {}\r\nItem: {}"@,
        seq![none, "\r\nQuery: "@, "\r\nItem: "@],
        first,
    );
    let second = seq![
        text_or(e.search_root@, wording.said("N/A"@)),
        text::decimal(e.relative_depth as int),
        text::decimal(e.final_score as int),
    ];
    assert("\r\nSearch Folder: {}    Relative depth: {}    Final score: {}"@
        =~= "\r\nSearch Folder: "@ + "{}"@ + "    Relative depth: "@ + "{}"@ + "    Final score: "@
        + "{}"@);
    wording::lemma_source_three(
        wording,
        "\r\nSearch Folder: {}    Relative depth: {}    Final score: {}"@,
        seq!["\r\nSearch Folder: "@, "    Relative depth: "@, "    Final score: "@],
        second,
    );
    assert(none + first[0] =~= e.summary@);
}

/// The head above an explanation.
pub fn score_header_text(e: &ScoreExplanation, wording: &Wording) -> (r: String)
    ensures
        r@ == header_text(*e, *wording),
        wording.is_source() ==> r@ == source_header(*e),
{
    proof {
        if wording.is_source() {
            lemma_header_in_the_source_language(*e, *wording);
        }
    }
    let depth = text::decimal_u64(e.relative_depth as u64);
    let score = text::decimal_i64(e.final_score as i64);
    let blank = wording.say("(blank)");
    let nothing = wording.say("N/A");
    let first = wording.say_with_three(
        "{}\r\nQuery: {}\r\nItem: {}",
        e.summary.as_str(),
        or_text(e.query.as_str(), blank.as_str()),
        or_text(e.item_path.as_str(), nothing.as_str()),
    );
    let second = wording.say_with_three(
        "\r\nSearch Folder: {}    Relative depth: {}    Final score: {}",
        or_text(e.search_root.as_str(), nothing.as_str()),
        depth.as_str(),
        score.as_str(),
    );
    text::cat2(first.as_str(), second.as_str())
}

/// The explanation to show for a result: that of its score where it has been scored, else
/// that of its kind.
pub open spec fn is_shown_explanation(
    shown: ScoreExplanation,
    result: SearchResult,
    query: Seq<char>,
    target: Option<Seq<char>>,
    scored: Option<ScoreExplanation>,
    wording: Wording,
) -> bool {
    &&& shown.query@ == query
    &&& match scored {
        Some(own) if result.ranking_kind == ResultRankingKind::Heuristic => {
            &&& shown == (ScoreExplanation {
                query: shown.query,
                item_path: shown.item_path,
                ..own
            })
            &&& shown.item_path@ == text_or(
                own.item_path@,
                match target {
                    Some(path) => path,
                    None => result.subtitle@,
                },
            )
        },
        _ => explanation::is_special(
            shown,
            result.ranking_kind,
            query,
            match target {
                Some(path) => path,
                None => result.subtitle@,
            },
            ""@,
            0,
            result.display_score,
            wording,
        ),
    }
}

/// The explanation to show for a result.
pub fn explanation_to_show(
    result: &SearchResult,
    query: &str,
    target: &Option<String>,
    scored: Option<ScoreExplanation>,
    wording: &Wording,
) -> (r: ScoreExplanation)
    ensures
        is_shown_explanation(r, *result, query@, text::optional(*target), scored, *wording),
{
    let mut shown: ScoreExplanation = match (scored, result.ranking_kind) {
        (Some(own), ResultRankingKind::Heuristic) => own,
        _ => {
            let path: &str = match target {
                Some(path) => path.as_str(),
                None => "",
            };
            explanation::special_score_explanation(
                result.ranking_kind,
                query,
                path,
                result.display_score,
                wording,
            )
        },
    };
    shown.query = query.to_owned();
    proof {
        reveal_strlit("");
    }
    if shown.item_path.as_str().is_empty() {
        shown.item_path = match target {
            Some(path) => path.clone(),
            None => result.subtitle.clone(),
        };
    }
    shown
}

// ---------------------------------------------------------------------------
// Layout
// ---------------------------------------------------------------------------

/// A place in a window.
#[derive(Clone, Copy, Debug, PartialEq, Eq, Structural)]
pub struct Area {
    pub x: i32,
    pub y: i32,
    pub width: i32,
    pub height: i32,
}

/// The greater of two numbers.
pub open spec fn greater(a: int, b: int) -> int {
    if a < b {
        b
    } else {
        a
    }
}

/// The places of what stands in the window of an explanation.
#[derive(Clone, Copy, Debug, PartialEq, Eq, Structural)]
pub struct ScoreLayout {
    pub header: Area,
    pub list: Area,
    pub close: Area,
    pub copy: Area,
}

/// Lays out the window of an explanation: a head, the list below it, and two buttons at
/// the lower right.
pub fn layout_score_breakdown(client_width: i32, client_height: i32) -> (r: ScoreLayout)
    ensures
        ({
            let width = greater(client_width as int, 1);
            let height = greater(client_height as int, 1);
            let buttons_y = greater(height - 42, 12);
            &&& r.header.x == 12 && r.header.y == 12 && r.header.width == width - 24
                && r.header.height == 104
            &&& r.list.x == 12 && r.list.y == 116 && r.list.width == width - 24 && r.list.height
                == greater(buttons_y - 128, 80)
            &&& r.close.x == width - 108 && r.close.y == buttons_y && r.close.width == 96
                && r.close.height == 30
            &&& r.copy.x == width - 216 && r.copy.y == buttons_y && r.copy.width == 96
                && r.copy.height == 30
        }),
{
    let width: i32 = if client_width < 1 {
        1
    } else {
        client_width
    };
    let height: i32 = if client_height < 1 {
        1
    } else {
        client_height
    };
    let buttons_y: i32 = if height - 42 < 12 {
        12
    } else {
        height - 42
    };
    let list_height: i32 = if buttons_y - 128 < 80 {
        80
    } else {
        buttons_y - 128
    };
    ScoreLayout {
        header: Area { x: 12, y: 12, width: width - 24, height: 104 },
        list: Area { x: 12, y: 116, width: width - 24, height: list_height },
        close: Area { x: width - 108, y: buttons_y, width: 96, height: 30 },
        copy: Area { x: width - 216, y: buttons_y, width: 96, height: 30 },
    }
}

/// The place of the content of a help window.
pub fn layout_help_content(width: i32, height: i32) -> (r: Area)
    requires
        i32::MIN + 30 <= width,
        i32::MIN + 59 <= height,
    ensures
        r.x == 15,
        r.y == 44,
        r.width == greater(width - 30, 0),
        r.height == greater(height - 59, 0),
{
    Area {
        x: 15,
        y: 44,
        width: if width < 30 {
            0
        } else {
            width - 30
        },
        height: if height < 59 {
            0
        } else {
            height - 59
        },
    }
}

/// The width of a column: at least a least one.
pub open spec fn column_width(width: i32) -> int {
    greater(width as int, 60)
}

/// The widths of the first `n` columns together.
pub open spec fn widths_sum(widths: Seq<i32>, n: int) -> int
    decreases n,
{
    if n <= 0 {
        0
    } else {
        widths_sum(widths, n - 1) + column_width(widths[n - 1])
    }
}

proof fn lemma_widths_sum_grows(widths: Seq<i32>, a: int, b: int)
    requires
        0 <= a <= b,
    ensures
        0 <= widths_sum(widths, a) <= widths_sum(widths, b),
    decreases b,
{
    if a < b {
        lemma_widths_sum_grows(widths, a, b - 1);
    } else if a > 0 {
        lemma_widths_sum_grows(widths, a - 1, b - 1);
    }
}

/// Fits the widths of columns into a list: the last takes what is left of the width
/// between the edges, where that is known.
pub fn fitted_list_view_column_widths(widths: &[i32], client_width: Option<i32>) -> (r: Vec<i32>)
    requires
        widths_sum(widths@, widths@.len() - 1) <= i32::MAX,
        client_width matches Some(w) ==> i32::MIN + 4 <= w,
    ensures
        r@.len() == widths@.len(),
        forall|i: int|
            0 <= i < r@.len() - 1 ==> #[trigger] r@[i] == column_width(widths@[i]),
        r@.len() > 0 ==> r@.last() == (match client_width {
            Some(w) => greater(
                column_width(widths@.last()),
                greater(w - 4, 60) - widths_sum(widths@, widths@.len() - 1),
            ),
            None => column_width(widths@.last()),
        }),
{
    let mut out: Vec<i32> = Vec::new();
    if widths.len() == 0 {
        return out;
    }
    let last: usize = widths.len() - 1;
    let mut fixed: i32 = 0;
    let mut i: usize = 0;
    while i < widths.len()
        invariant
            i <= widths.len(),
            last == widths.len() - 1,
            widths_sum(widths@, last as int) <= i32::MAX,
            out@.len() == i,
            fixed == widths_sum(
                widths@,
                if i < last {
                    i as int
                } else {
                    last as int
                },
            ),
            forall|k: int| 0 <= k < i ==> #[trigger] out@[k] == column_width(widths@[k]),
        decreases widths.len() - i,
    {
        let width: i32 = if widths[i] < 60 {
            60
        } else {
            widths[i]
        };
        if i < last {
            proof {
                lemma_widths_sum_grows(widths@, i + 1, last as int);
                lemma_widths_sum_grows(widths@, 0, i as int);
            }
            fixed = fixed + width;
        }
        out.push(width);
        i += 1;
    }
    if let Some(w) = client_width {
        let available: i32 = if w - 4 < 60 {
            60
        } else {
            w - 4
        };
        proof {
            lemma_widths_sum_grows(widths@, 0, last as int);
        }
        let rest: i32 = available - fixed;
        if rest > out[last] {
            out.set(last, rest);
        }
    }
    out
}

// ---------------------------------------------------------------------------
// Numbers in messages
// ---------------------------------------------------------------------------

/// A colour as one number, red lowest.
pub fn colorref(red: u8, green: u8, blue: u8) -> (r: u32)
    ensures
        r == red + 256 * green + 65536 * blue,
{
    red as u32 + 256 * (green as u32) + 65536 * (blue as u32)
}

/// The lower half of a word.
pub fn loword(value: usize) -> (r: u16)
    ensures
        r == value % 65536,
{
    (value % 65536) as u16
}

/// The half of a word above the lower.
pub fn hiword(value: usize) -> (r: u16)
    ensures
        r == (value / 65536) % 65536,
{
    ((value / 65536) % 65536) as u16
}

/// A number of sixteen bits as a signed one.
pub open spec fn signed16(n: int) -> int {
    if n >= 32768 {
        n - 65536
    } else {
        n
    }
}

/// The lower half of a word as a signed number.
pub fn signed_loword(value: usize) -> (r: i16)
    ensures
        r == signed16(value as int % 65536),
{
    let low: i32 = loword(value) as i32;
    if low >= 32768 {
        (low - 65536) as i16
    } else {
        low as i16
    }
}

/// The half of a word above the lower as a signed number.
pub fn signed_hiword(value: usize) -> (r: i16)
    ensures
        r == signed16((value as int / 65536) % 65536),
{
    let high: i32 = hiword(value) as i32;
    if high >= 32768 {
        (high - 65536) as i16
    } else {
        high as i16
    }
}

/// The lowest sixteen bits of a number in two's complement.
pub open spec fn low16(n: int) -> int {
    n % 65536
}

/// Two numbers in the halves of a word.
pub fn make_lparam(low: i32, high: i32) -> (r: u32)
    ensures
        r == low16(low as int) + 65536 * low16(high as int),
{
    let a: i64 = (low as i64 + 0x1_0000_0000) % 65536;
    let b: i64 = (high as i64 + 0x1_0000_0000) % 65536;
    (a + 65536 * b) as u32
}

/// Two small numbers are read from a word as they were put into it.
pub proof fn lemma_lparam_round_trip(low: i32, high: i32)
    requires
        -32768 <= low < 32768,
        -32768 <= high < 32768,
    ensures
        ({
            let word = low16(low as int) + 65536 * low16(high as int);
            signed16(word % 65536) == low && signed16((word / 65536) % 65536) == high
        }),
{
}

// ---------------------------------------------------------------------------
// What is shown of results
// ---------------------------------------------------------------------------

/// A result leads to its path, but a shortcut to what it was followed to; what a plugin does
/// leads nowhere.
pub proof fn lemma_where_results_lead(result: SearchResult, followed: Option<Seq<char>>)
    ensures
        result.target is Plugin ==> target_text(result, followed) is None,
        result.target matches LaunchTarget::Path(path) ==> (followed is None || !(shell::has_extension(
            path@,
            "lnk"@,
        ) || shell::has_extension(path@, "url"@)) ==> target_text(result, followed) == Some(path@))
            && (followed is Some && (shell::has_extension(path@, "lnk"@) || shell::has_extension(
            path@,
            "url"@,
        )) ==> target_text(result, followed) == followed),
{
}

/// A result is listed with its number, its title before its place, and its score; one of a
/// plugin without number and score, and one launched before without its score.
pub proof fn lemma_parts_of_a_line(index: int, result: SearchResult, show: bool)
    requires
        index >= 0,
    ensures
        ({
            let line = list_text(index, result, show);
            let both = result.title@ + "    -    "@ + result.subtitle@;
            &&& text::has_infix(line, both)
            &&& result.target is Plugin ==> line == both
            &&& !(result.target is Plugin) ==> text::has_prefix(line, padded(index + 1) + ".  "@)
            &&& !(result.target is Plugin) && result.score_detail@ == "recent order"@ ==> line
                == padded(index + 1) + ".  "@ + both
            &&& !(result.target is Plugin) && result.score_detail@ != "recent order"@
                ==> text::has_infix(line, "    [score "@ + score_label(result)) && line.last() == ']'
        }),
        result.from_query_launch_rule ==> score_label(result) == "*"@,
        !result.from_query_launch_rule ==> text::parsed_int(score_label(result)) == Some(
            result.display_score as int,
        ),
{
    reveal_strlit("]");
    let line = list_text(index, result, show);
    let both = result.title@ + "    -    "@ + result.subtitle@;
    let front = padded(index + 1) + ".  "@;
    let none = Seq::<char>::empty();
    text::lemma_decimal_round_trip(result.display_score as int);
    if result.target is Plugin {
        assert(none + both + none =~= both);
        text::lemma_stands_in(none, both, none);
    } else if result.score_detail@ == "recent order"@ {
        assert(front + both + none =~= line);
        text::lemma_stands_in(front, both, none);
        text::lemma_stands_in(none, front, both);
    } else {
        let score = "    [score "@ + score_label(result);
        let rest = breakdown_shown(result, show) + "]"@;
        assert(line =~= front + both + (score + rest));
        text::lemma_stands_in(front, both, score + rest);
        assert(line =~= front + (both + score + rest));
        text::lemma_stands_in(none, front, both + score + rest);
        assert(line =~= (front + both) + score + rest);
        text::lemma_stands_in(front + both, score, rest);
    }
}

/// A breakdown is shown in brackets where it is asked for and there is one, and not otherwise.
pub proof fn lemma_breakdowns_in_brackets(result: SearchResult, show: bool)
    ensures
        show && result.score_detail@.len() > 0 ==> breakdown_shown(result, show) == seq![' ', '(']
            + result.score_detail@ + seq![')'],
        !show || result.score_detail@.len() == 0 ==> breakdown_shown(result, show).len() == 0,
{
    reveal_strlit(" (");
    reveal_strlit(")");
    assert(" ("@ =~= seq![' ', '(']);
    assert(")"@ =~= seq![')']);
}

/// Numbers below ten stand below the last digit of longer ones.
pub proof fn lemma_numbers_line_up(n: int)
    requires
        0 < n < 100,
    ensures
        padded(n).len() == 2,
        padded(n).last() == text::decimal(n).last(),
        n < 10 <==> padded(n)[0] == ' ',
{
    reveal_strlit(" ");
    let d: nat = 0;
    if n < 10 {
        text::lemma_written_in_tens(d, n as nat);
        assert(padded(n) =~= seq![' ', text::decimal(n)[0]]);
    } else {
        text::lemma_written_in_tens((n / 10) as nat, (n % 10) as nat);
        text::lemma_written_in_tens(d, (n / 10) as nat);
        text::lemma_written_in_tens(d, (n % 10) as nat);
        assert(10 * ((n / 10) as nat) + ((n % 10) as nat) == n);
        assert(padded(n) == text::decimal(n));
        assert(padded(n)[0] == text::decimal(n / 10)[0]);
    }
}

/// Each kind of result has a name of its own.
pub proof fn lemma_kinds_have_names(kind: ResultRankingKind)
    ensures
        kind_text(kind) == "Plugin"@ <==> kind == ResultRankingKind::Plugin,
        kind_text(kind) == "Recent order"@ <==> kind == ResultRankingKind::RecentOrder,
        kind_text(kind) == "Query Launch Rule"@ <==> kind == ResultRankingKind::QueryLaunchRule,
        kind_text(kind) == "Heuristic"@ <==> kind == ResultRankingKind::Heuristic,
{
    reveal_strlit("Plugin");
    reveal_strlit("Recent order");
    reveal_strlit("Query Launch Rule");
    reveal_strlit("Heuristic");
    assert("Plugin"@[0] == 'P' && "Recent order"@[0] == 'R' && "Query Launch Rule"@[0] == 'Q'
        && "Heuristic"@[0] == 'H');
}

/// Only sums are shown: what has both signs in it and is none of the plain words.
pub proof fn lemma_only_sums_are_shown(detail: Seq<char>)
    ensures
        shows_sum(detail) ==> text::has_infix(detail, " + "@) && text::has_infix(detail, " = "@),
        !shows_sum("recent order"@),
        !shows_sum("starred"@),
        !shows_sum("plugin"@),
        !shows_sum(Seq::empty()),
        text::has_infix(detail, " + "@) && text::has_infix(detail, " = "@) && detail
            != "recent order"@ && detail != "starred"@ && detail != "plugin"@ ==> shows_sum(detail),
{
    reveal_strlit(" + ");
}

/// Columns are as wide as asked for, but no narrower than the least width; their widths add up.
pub proof fn lemma_widths_add_up(widths: Seq<i32>, n: int)
    requires
        0 < n <= widths.len(),
    ensures
        column_width(widths[n - 1]) >= 60,
        column_width(widths[n - 1]) >= widths[n - 1],
        column_width(widths[n - 1]) == 60 || column_width(widths[n - 1]) == widths[n - 1],
        widths_sum(widths, n) == widths_sum(widths, n - 1) + column_width(widths[n - 1]),
        widths_sum(widths, 0) == 0,
{
}

} // verus!
