//! The scoring rules as lines of text.
//!
//! A line under the heading of a section gives a rule its value behind `=`; behind
//! `<<<` the rule is turned off.

use crate::document;
use crate::index_roots;
use crate::scoring;
use crate::text;
use crate::types::{PatternRule, ScoringConfig};
use vstd::prelude::*;

verus! {

// ---------------------------------------------------------------------------
// Weights
// ---------------------------------------------------------------------------

/// The weights of a configuration, without its patterns.
pub struct Weights {
    pub recent_first_launch_score: i32,
    pub recent_launch_increment: i32,
    pub exact_match_bonus: i32,
    pub exact_word_bonus: i32,
    pub prefix_match_bonus: i32,
    pub word_boundary_bonus: i32,
    pub consecutive_match_bonus: i32,
    pub acronym_match_bonus: i32,
    pub leftmost_match_bonus: i32,
    pub leftmost_distance_penalty: i32,
    pub length_score_weight: i32,
    pub compact_match_bonus: i32,
    pub recent_score_ceiling: i32,
    pub explicit_folder_name_match_adjustment: i32,
    pub folder_score_as_file_score_percent: i32,
    pub path_depth_penalty: i32,
    pub recency_date_bonus: i32,
    pub recency_date_enabled: bool,
}

/// The weights of a configuration.
pub open spec fn weights(c: ScoringConfig) -> Weights {
    Weights {
        recent_first_launch_score: c.recent_first_launch_score,
        recent_launch_increment: c.recent_launch_increment,
        exact_match_bonus: c.exact_match_bonus,
        exact_word_bonus: c.exact_word_bonus,
        prefix_match_bonus: c.prefix_match_bonus,
        word_boundary_bonus: c.word_boundary_bonus,
        consecutive_match_bonus: c.consecutive_match_bonus,
        acronym_match_bonus: c.acronym_match_bonus,
        leftmost_match_bonus: c.leftmost_match_bonus,
        leftmost_distance_penalty: c.leftmost_distance_penalty,
        length_score_weight: c.length_score_weight,
        compact_match_bonus: c.compact_match_bonus,
        recent_score_ceiling: c.recent_score_ceiling,
        explicit_folder_name_match_adjustment: c.explicit_folder_name_match_adjustment,
        folder_score_as_file_score_percent: c.folder_score_as_file_score_percent,
        path_depth_penalty: c.path_depth_penalty,
        recency_date_bonus: c.recency_date_bonus,
        recency_date_enabled: c.recency_date_enabled,
    }
}

/// The names of the rules with a weight.
pub open spec fn heuristic_names() -> Seq<Seq<char>> {
    seq![
        "Recent First Launch Score"@,
        "Recent Launch Increment"@,
        "Exact Match Bonus"@,
        "Exact Word Bonus"@,
        "Prefix Match Bonus"@,
        "Word Boundary Bonus"@,
        "Consecutive Match Bonus"@,
        "Acronym Match Bonus"@,
        "Leftmost Match Bonus"@,
        "Leftmost Distance Penalty"@,
        "Length Score Weight"@,
        "Compact Match Bonus"@,
        "Recent Score Ceiling"@,
        "Explicit Folder Name Match Adjustment"@,
        "Folder Score As % of File Score"@,
        "Path Depth Penalty"@,
        "Recency Date Bonus"@,
    ]
}

/// The value of a rule: its own where it is on and has one, else the current one,
/// and a fixed one where it is off.
pub open spec fn int_value(value: Option<i32>, current: i32, enabled: bool, off: i32) -> i32 {
    if !enabled {
        off
    } else {
        match value {
            Some(n) => n,
            None => current,
        }
    }
}

/// The value of a rule that cannot be negative.
pub open spec fn non_negative_value(
    value: Option<i32>,
    current: i32,
    enabled: bool,
    off: i32,
) -> i32 {
    if !enabled {
        off
    } else {
        match value {
            Some(n) => if n >= 0 {
                n
            } else {
                current
            },
            None => current,
        }
    }
}

/// The value of a rule.
pub fn scoring_int_value(value: Option<i32>, current: i32, enabled: bool, disabled_value: i32) -> (r:
    i32)
    ensures
        r == int_value(value, current, enabled, disabled_value),
{
    if enabled {
        match value {
            Some(n) => n,
            None => current,
        }
    } else {
        disabled_value
    }
}

/// The value of a rule that cannot be negative.
pub fn scoring_non_negative_value(
    value: Option<i32>,
    current: i32,
    enabled: bool,
    disabled_value: i32,
) -> (r: i32)
    ensures
        r == non_negative_value(value, current, enabled, disabled_value),
{
    if enabled {
        match value {
            Some(n) => if n >= 0 {
                n
            } else {
                current
            },
            None => current,
        }
    } else {
        disabled_value
    }
}

/// The number that a text notes, if it has 32 bits.
pub open spec fn number_in(s: Seq<char>) -> Option<i32> {
    match index_roots::parsed_i32(s) {
        Some(n) => Some(n as i32),
        None => None,
    }
}

/// Weights after a rule.
pub open spec fn with_rule(w: Weights, name: Seq<char>, value: Option<i32>, enabled: bool) -> Weights {
    if name == "Recent First Launch Score"@ {
        Weights { recent_first_launch_score: int_value(value, w.recent_first_launch_score, enabled, 0), ..w }
    } else if name == "Recent Launch Increment"@ {
        Weights { recent_launch_increment: int_value(value, w.recent_launch_increment, enabled, 0), ..w }
    } else if name == "Exact Match Bonus"@ {
        Weights { exact_match_bonus: int_value(value, w.exact_match_bonus, enabled, 0), ..w }
    } else if name == "Exact Word Bonus"@ {
        Weights { exact_word_bonus: int_value(value, w.exact_word_bonus, enabled, 0), ..w }
    } else if name == "Prefix Match Bonus"@ {
        Weights { prefix_match_bonus: int_value(value, w.prefix_match_bonus, enabled, 0), ..w }
    } else if name == "Word Boundary Bonus"@ {
        Weights { word_boundary_bonus: int_value(value, w.word_boundary_bonus, enabled, 0), ..w }
    } else if name == "Consecutive Match Bonus"@ {
        Weights { consecutive_match_bonus: int_value(value, w.consecutive_match_bonus, enabled, 0), ..w }
    } else if name == "Acronym Match Bonus"@ {
        Weights { acronym_match_bonus: int_value(value, w.acronym_match_bonus, enabled, 0), ..w }
    } else if name == "Leftmost Match Bonus"@ {
        Weights { leftmost_match_bonus: int_value(value, w.leftmost_match_bonus, enabled, 0), ..w }
    } else if name == "Leftmost Distance Penalty"@ {
        Weights { leftmost_distance_penalty: int_value(value, w.leftmost_distance_penalty, enabled, 0), ..w }
    } else if name == "Length Score Weight"@ {
        Weights { length_score_weight: non_negative_value(value, w.length_score_weight, enabled, 0), ..w }
    } else if name == "Compact Match Bonus"@ {
        Weights { compact_match_bonus: non_negative_value(value, w.compact_match_bonus, enabled, 0), ..w }
    } else if name == "Recent Score Ceiling"@ {
        Weights { recent_score_ceiling: int_value(value, w.recent_score_ceiling, enabled, i32::MAX), ..w }
    } else if name == "Explicit Folder Name Match Adjustment"@ {
        Weights { explicit_folder_name_match_adjustment: int_value(value, w.explicit_folder_name_match_adjustment, enabled, 0), ..w }
    } else if name == "Folder Score As % of File Score"@ {
        Weights { folder_score_as_file_score_percent: non_negative_value(value, w.folder_score_as_file_score_percent, enabled, 0), ..w }
    } else if name == "Path Depth Penalty"@ {
        Weights { path_depth_penalty: int_value(value, w.path_depth_penalty, enabled, 0), ..w }
    } else if name == "Recency Date Bonus"@ {
        Weights {
            recency_date_bonus: match value {
                Some(n) => n,
                None => w.recency_date_bonus,
            },
            recency_date_enabled: enabled,
            ..w
        }
    } else {
        w
    }
}

/// Applies a rule to a configuration.
pub fn apply_scoring_heuristic(config: &mut ScoringConfig, key: &str, value: &str, enabled: bool)
    ensures
        weights(*final(config)) == with_rule(
            weights(*old(config)),
            text::trimmed(key@),
            number_in(text::trimmed(value@)),
            enabled,
        ),
        final(config).pattern_rules == old(config).pattern_rules,
{
    let key_chars = text::chars_of(key);
    let value_chars = text::chars_of(value);
    let name = text::trim_chars(key_chars.as_slice());
    let number: Option<i32> = text::parse_i32(text::trim_chars(value_chars.as_slice()));
    if document::is_text(name, "Recent First Launch Score") {
        config.recent_first_launch_score = scoring_int_value(number, config.recent_first_launch_score, enabled, 0);
    } else if document::is_text(name, "Recent Launch Increment") {
        config.recent_launch_increment = scoring_int_value(number, config.recent_launch_increment, enabled, 0);
    } else if document::is_text(name, "Exact Match Bonus") {
        config.exact_match_bonus = scoring_int_value(number, config.exact_match_bonus, enabled, 0);
    } else if document::is_text(name, "Exact Word Bonus") {
        config.exact_word_bonus = scoring_int_value(number, config.exact_word_bonus, enabled, 0);
    } else if document::is_text(name, "Prefix Match Bonus") {
        config.prefix_match_bonus = scoring_int_value(number, config.prefix_match_bonus, enabled, 0);
    } else if document::is_text(name, "Word Boundary Bonus") {
        config.word_boundary_bonus = scoring_int_value(number, config.word_boundary_bonus, enabled, 0);
    } else if document::is_text(name, "Consecutive Match Bonus") {
        config.consecutive_match_bonus = scoring_int_value(number, config.consecutive_match_bonus, enabled, 0);
    } else if document::is_text(name, "Acronym Match Bonus") {
        config.acronym_match_bonus = scoring_int_value(number, config.acronym_match_bonus, enabled, 0);
    } else if document::is_text(name, "Leftmost Match Bonus") {
        config.leftmost_match_bonus = scoring_int_value(number, config.leftmost_match_bonus, enabled, 0);
    } else if document::is_text(name, "Leftmost Distance Penalty") {
        config.leftmost_distance_penalty = scoring_int_value(number, config.leftmost_distance_penalty, enabled, 0);
    } else if document::is_text(name, "Length Score Weight") {
        config.length_score_weight = scoring_non_negative_value(number, config.length_score_weight, enabled, 0);
    } else if document::is_text(name, "Compact Match Bonus") {
        config.compact_match_bonus = scoring_non_negative_value(number, config.compact_match_bonus, enabled, 0);
    } else if document::is_text(name, "Recent Score Ceiling") {
        config.recent_score_ceiling = scoring_int_value(number, config.recent_score_ceiling, enabled, i32::MAX);
    } else if document::is_text(name, "Explicit Folder Name Match Adjustment") {
        config.explicit_folder_name_match_adjustment = scoring_int_value(number, config.explicit_folder_name_match_adjustment, enabled, 0);
    } else if document::is_text(name, "Folder Score As % of File Score") {
        config.folder_score_as_file_score_percent = scoring_non_negative_value(number, config.folder_score_as_file_score_percent, enabled, 0);
    } else if document::is_text(name, "Path Depth Penalty") {
        config.path_depth_penalty = scoring_int_value(number, config.path_depth_penalty, enabled, 0);
    } else if document::is_text(name, "Recency Date Bonus") {
        if let Some(n) = number {
            config.recency_date_bonus = n;
        }
        config.recency_date_enabled = enabled;
    }
}

/// The name of a rule with a weight, if the key is one.
pub fn heuristic_rule_identity(key: &str) -> (r: Option<String>)
    ensures
        text::optional(r) == (if heuristic_names().contains(text::trimmed(key@)) {
            Some(text::trimmed(key@))
        } else {
            None
        }),
{
    let chars = text::chars_of(key);
    let name = text::trim_chars(chars.as_slice());
    let names: Vec<&str> = vec![
        "Recent First Launch Score",
        "Recent Launch Increment",
        "Exact Match Bonus",
        "Exact Word Bonus",
        "Prefix Match Bonus",
        "Word Boundary Bonus",
        "Consecutive Match Bonus",
        "Acronym Match Bonus",
        "Leftmost Match Bonus",
        "Leftmost Distance Penalty",
        "Length Score Weight",
        "Compact Match Bonus",
        "Recent Score Ceiling",
        "Explicit Folder Name Match Adjustment",
        "Folder Score As % of File Score",
        "Path Depth Penalty",
        "Recency Date Bonus",
    ];
    let ghost all = heuristic_names();
    proof {
        assert(names@.len() == all.len());
        assert forall|i: int| 0 <= i < names@.len() implies (#[trigger] names@[i])@ == all[i] by {}
    }
    let mut i: usize = 0;
    while i < names.len()
        invariant
            i <= names.len(),
            all == heuristic_names(),
            names@.len() == all.len(),
            forall|k: int| 0 <= k < names@.len() ==> (#[trigger] names@[k])@ == all[k],
            forall|k: int| 0 <= k < i ==> (#[trigger] all[k]) != name@,
            name@ == text::trimmed(key@),
        decreases names.len() - i,
    {
        proof {
            assert(names@[i as int]@ == all[i as int]);
        }
        if document::is_text(name, names[i]) {
            proof {
                assert(all.contains(name@));
            }
            return Some(text::string_of(name));
        }
        i += 1;
    }
    None
}

/// Whether the value of a rule cannot be negative.
pub fn is_non_negative_scoring_rule(key: &str) -> (r: bool)
    ensures
        r == (text::trimmed(key@) == "Length Score Weight"@ || text::trimmed(key@)
            == "Compact Match Bonus"@),
{
    let chars = text::chars_of(key);
    let name = text::trim_chars(chars.as_slice());
    document::is_text(name, "Length Score Weight") || document::is_text(name, "Compact Match Bonus")
}

/// Whether a rule can have a value: a number of 32 bits that is not negative where
/// the rule forbids it.
pub fn scoring_rule_value_is_valid(key: &str, value: &str) -> (r: bool)
    ensures
        r == (match number_in(text::trimmed(value@)) {
            Some(n) => n >= 0 || !(text::trimmed(key@) == "Length Score Weight"@ || text::trimmed(
                key@,
            ) == "Compact Match Bonus"@),
            None => false,
        }),
{
    let chars = text::chars_of(value);
    match text::parse_i32(text::trim_chars(chars.as_slice())) {
        Some(n) => n >= 0 || !is_non_negative_scoring_rule(key),
        None => false,
    }
}

/// Reads a setting that is on or off.
pub fn parse_bool_setting(value: &str) -> (r: Option<bool>)
    ensures
        r == (if text::trimmed(value@) == "1"@ {
            Some(true)
        } else if text::trimmed(value@) == "0"@ {
            Some(false)
        } else {
            None
        }),
{
    let chars = text::chars_of(value);
    let plain = text::trim_chars(chars.as_slice());
    if document::is_text(plain, "1") {
        Some(true)
    } else if document::is_text(plain, "0") {
        Some(false)
    } else {
        None
    }
}

// ---------------------------------------------------------------------------
// Lines
// ---------------------------------------------------------------------------

/// A line without white space around it and without a byte order mark.
pub open spec fn bare_line(line: Seq<char>) -> Seq<char> {
    text::trimmed(document::stripped_start(text::trimmed(line), seq!['\u{feff}']))
}

/// The section that a line is the heading of.
pub open spec fn heading(line: Seq<char>) -> Option<Seq<char>> {
    if line.len() > 0 && line[0] == '[' && line.last() == ']' {
        Some(document::stripped(line, seq!['[', ']']))
    } else {
        None
    }
}

/// The section that a line is the heading of, whatever white space stands around it.
pub open spec fn section_of(line: Seq<char>) -> Option<Seq<char>> {
    heading(text::trimmed(line))
}

/// The state, the key and the value of a rule.
pub open spec fn rule_cut(line: Seq<char>) -> Option<(bool, Seq<char>, Seq<char>)> {
    match document::cut(line, "<<<"@) {
        Some((key, value)) => Some((false, key, value)),
        None => match document::cut(line, "="@) {
            Some((key, value)) => Some((true, key, value)),
            None => None,
        },
    }
}

/// The score of a value: what stands in front of the first bar.
pub open spec fn score_text(value: Seq<char>) -> Seq<char> {
    text::trimmed(text::pieces(value, '|')[0])
}

/// The keywords of the last of the first `n` pieces that gives any.
pub open spec fn modifiers_among(pieces: Seq<Seq<char>>, n: int) -> Seq<Seq<char>>
    decreases n,
{
    if n <= 1 {
        Seq::empty()
    } else {
        match document::setting_of(text::trimmed(pieces[n - 1])) {
            Some((key, value)) => if key == "modifiers"@ {
                index_roots::keywords_in(value)
            } else {
                modifiers_among(pieces, n - 1)
            },
            None => modifiers_among(pieces, n - 1),
        }
    }
}

/// The keywords that a value asks for.
pub open spec fn modifiers_in(value: Seq<char>) -> Seq<Seq<char>> {
    let pieces = text::pieces(value, '|');
    modifiers_among(pieces, pieces.len() as int)
}

pub(crate) fn bare_of<'a>(line: &'a [char]) -> (r: &'a [char])
    ensures
        r@ == bare_line(line@),
{
    let mark: Vec<char> = vec!['\u{feff}'];
    proof {
        assert(mark@ =~= seq!['\u{feff}']);
    }
    text::trim_chars(document::strip_start(text::trim_chars(line), mark.as_slice()))
}

pub(crate) fn heading_of(line: &[char]) -> (r: Option<String>)
    ensures
        text::optional(r) == heading(line@),
{
    if line.len() > 0 && line[0] == '[' && line[line.len() - 1] == ']' {
        let brackets: Vec<char> = vec!['[', ']'];
        proof {
            assert(brackets@ =~= seq!['[', ']']);
        }
        Some(text::string_of(document::strip_both(line, brackets.as_slice())))
    } else {
        None
    }
}

/// The section that a line is the heading of.
pub fn scoring_section(line: &str) -> (r: Option<String>)
    ensures
        text::optional(r) == section_of(line@),
{
    let chars = text::chars_of(line);
    heading_of(text::trim_chars(chars.as_slice()))
}

pub(crate) fn cut_rule<'a>(line: &'a [char]) -> (r: Option<(bool, &'a [char], &'a [char])>)
    ensures
        match rule_cut(line@) {
            None => r is None,
            Some((enabled, key, value)) => r matches Some((e, k, v)) && e == enabled && k@ == key
                && v@ == value,
        },
{
    match document::cut_chars(line, "<<<") {
        Some((key, value)) => Some((false, key, value)),
        None => match document::cut_chars(line, "=") {
            Some((key, value)) => Some((true, key, value)),
            None => None,
        },
    }
}

/// The score and the keywords of a value.
pub fn parse_scoring_value_and_modifiers(raw_value: &str) -> (r: (String, Vec<String>))
    ensures
        r.0@ == score_text(raw_value@),
        text::texts(r.1@) == modifiers_in(raw_value@),
{
    let chars = text::chars_of(raw_value);
    let pieces = text::split_pieces(chars.as_slice(), '|');
    let ghost all = text::pieces(raw_value@, '|');
    proof {
        assert(all.len() == pieces@.len());
        assert(all[0] == pieces@[0]@);
    }
    let score = text::trim_text(pieces[0].as_str());
    let mut modifiers: Vec<String> = Vec::new();
    let mut i: usize = 1;
    proof {
        assert(text::texts(modifiers@) =~= Seq::<Seq<char>>::empty());
    }
    while i < pieces.len()
        invariant
            1 <= i <= pieces.len(),
            all == text::texts(pieces@),
            text::texts(modifiers@) == modifiers_among(all, i as int),
        decreases pieces.len() - i,
    {
        proof {
            assert(all[i as int] == pieces@[i as int]@);
        }
        let piece = text::chars_of(pieces[i].as_str());
        if let Some((key, value)) = document::cut_chars(text::trim_chars(piece.as_slice()), "=") {
            if document::is_text(text::trim_chars(key), "modifiers") {
                modifiers = index_roots::normalize_keywords(text::string_of(value).as_str());
            }
        }
        i += 1;
    }
    (score, modifiers)
}

/// Keywords as they are shown.
pub fn scoring_modifiers_display(modifiers: &[String]) -> (r: String)
    ensures
        r@ == scoring::keywords_shown(text::texts(modifiers@)),
{
    scoring::search_folder_modifier_display(modifiers)
}

/// A line that is blank or a comment.
pub open spec fn says_nothing(line: Seq<char>) -> bool {
    line.len() == 0 || line[0] == '#' || line[0] == ';'
}

/// What tells a rule from the others of its section; none where the line is no rule
/// of it.
pub open spec fn rule_identity(section: Seq<char>, line: Seq<char>) -> Option<Seq<char>> {
    let bare = bare_line(line);
    if says_nothing(bare) {
        None
    } else {
        match rule_cut(bare) {
            None => None,
            Some((_, key, value)) => if number_in(text::trimmed(score_text(value))) is None {
                None
            } else if section == "HeuristicScoring"@ {
                if heuristic_names().contains(text::trimmed(key)) {
                    Some("heuristic:"@ + text::trimmed(key))
                } else {
                    None
                }
            } else if section == "PatternScoring"@ && text::trimmed(key).len() > 0 {
                Some(
                    "pattern:"@ + text::fold(text::trimmed(key)) + ":"@ + text::join(
                        modifiers_in(value),
                        "\u{1f}"@,
                    ),
                )
            } else {
                None
            },
        }
    }
}

/// What tells a rule from the others of its section.
pub fn scoring_rule_identity(section: &str, line: &str) -> (r: Option<String>)
    ensures
        text::optional(r) == rule_identity(section@, line@),
{
    let chars = text::chars_of(line);
    let bare = bare_of(chars.as_slice());
    if bare.len() == 0 || bare[0] == '#' || bare[0] == ';' {
        return None;
    }
    match cut_rule(bare) {
        None => None,
        Some((_, key, value)) => {
            let (score, modifiers): (String, Vec<String>) = parse_scoring_value_and_modifiers(
                text::string_of(value).as_str(),
            );
            let digits = text::chars_of(score.as_str());
            match text::parse_i32(text::trim_chars(digits.as_slice())) {
                None => None,
                Some(_) => {
                    let name = text::trim_chars(key);
                    if text::same_text(section, "HeuristicScoring") {
                        match heuristic_rule_identity(text::string_of(key).as_str()) {
                            Some(identity) => Some(text::cat2("heuristic:", identity.as_str())),
                            None => None,
                        }
                    } else if text::same_text(section, "PatternScoring") && name.len() > 0 {
                        Some(
                            text::cat4(
                                "pattern:",
                                text::fold_text(text::string_of(name).as_str()).as_str(),
                                ":",
                                text::join_texts(modifiers.as_slice(), "\u{1f}").as_str(),
                            ),
                        )
                    } else {
                        None
                    }
                },
            }
        },
    }
}

// ---------------------------------------------------------------------------
// Configurations
// ---------------------------------------------------------------------------

/// What a pattern with a score says.
#[verifier::ext_equal]
pub struct RuleModel {
    pub pattern: Seq<char>,
    pub folded_pattern: Seq<char>,
    pub score: i32,
    pub modifiers: Seq<Seq<char>>,
}

/// What a rule says.
pub open spec fn rule_model(rule: PatternRule) -> RuleModel {
    RuleModel {
        pattern: rule.pattern@,
        folded_pattern: rule.folded_pattern@,
        score: rule.score,
        modifiers: text::texts(rule.modifiers@),
    }
}

/// What rules say.
pub open spec fn rule_models(rules: Seq<PatternRule>) -> Seq<RuleModel> {
    Seq::new(rules.len(), |i: int| rule_model(rules[i]))
}

/// What is known after some lines: the section, the weights and the patterns.
pub struct ConfigState {
    pub section: Seq<char>,
    pub weights: Weights,
    pub rules: Seq<RuleModel>,
}

/// The state before the first line.
pub open spec fn no_config() -> ConfigState {
    ConfigState {
        section: Seq::empty(),
        weights: Weights {
            recent_first_launch_score: 0,
            recent_launch_increment: 0,
            exact_match_bonus: 0,
            exact_word_bonus: 0,
            prefix_match_bonus: 0,
            word_boundary_bonus: 0,
            consecutive_match_bonus: 0,
            acronym_match_bonus: 0,
            leftmost_match_bonus: 0,
            leftmost_distance_penalty: 0,
            length_score_weight: 0,
            compact_match_bonus: 0,
            recent_score_ceiling: 0,
            explicit_folder_name_match_adjustment: 0,
            folder_score_as_file_score_percent: 100,
            path_depth_penalty: 0,
            recency_date_bonus: 0,
            recency_date_enabled: false,
        },
        rules: Seq::empty(),
    }
}

/// The state after one more line.
pub open spec fn config_step(state: ConfigState, line: Seq<char>) -> ConfigState {
    let bare = bare_line(line);
    if says_nothing(bare) {
        state
    } else if heading(bare) is Some {
        ConfigState { section: heading(bare)->0, ..state }
    } else {
        match rule_cut(bare) {
            None => state,
            Some((enabled, key, value)) => if state.section == "HeuristicScoring"@ {
                ConfigState {
                    weights: with_rule(
                        state.weights,
                        text::trimmed(text::trimmed(key)),
                        number_in(text::trimmed(score_text(value))),
                        enabled,
                    ),
                    ..state
                }
            } else if state.section == "PatternScoring"@ && enabled && number_in(
                score_text(value),
            ) is Some {
                ConfigState {
                    rules: state.rules.push(
                        RuleModel {
                            pattern: text::trimmed(key),
                            folded_pattern: text::fold(text::trimmed(key)),
                            score: number_in(score_text(value))->0,
                            modifiers: modifiers_in(value),
                        },
                    ),
                    ..state
                }
            } else {
                state
            },
        }
    }
}

/// The state after the first `n` lines.
pub open spec fn config_after(all: Seq<Seq<char>>, n: int) -> ConfigState
    decreases n,
{
    if n <= 0 {
        no_config()
    } else {
        config_step(config_after(all, n - 1), all[n - 1])
    }
}

/// The configuration that a text describes.
pub open spec fn described_config(content: Seq<char>) -> ConfigState {
    config_after(text::lines(content), text::lines(content).len() as int)
}

struct Reading {
    section: String,
    config: ScoringConfig,
}

impl Reading {
    spec fn is(&self, state: ConfigState) -> bool {
        &&& self.section@ == state.section
        &&& weights(self.config) == state.weights
        &&& rule_models(self.config.pattern_rules@) == state.rules
    }

    fn step(&mut self, line: &str)
        ensures
            forall|state: ConfigState| #[trigger]
                old(self).is(state) ==> final(self).is(config_step(state, line@)),
    {
        let chars = text::chars_of(line);
        let bare = bare_of(chars.as_slice());
        if bare.len() == 0 || bare[0] == '#' || bare[0] == ';' {
            return;
        }
        if let Some(section) = heading_of(bare) {
            self.section = section;
            return;
        }
        if let Some((enabled, key, value)) = cut_rule(bare) {
            let name = text::string_of(text::trim_chars(key));
            let (score, modifiers): (String, Vec<String>) = parse_scoring_value_and_modifiers(
                text::string_of(value).as_str(),
            );
            if text::same_text(self.section.as_str(), "HeuristicScoring") {
                apply_scoring_heuristic(
                    &mut self.config,
                    name.as_str(),
                    score.as_str(),
                    enabled,
                );
            } else if text::same_text(self.section.as_str(), "PatternScoring") && enabled {
                let digits = text::chars_of(score.as_str());
                if let Some(number) = text::parse_i32(digits.as_slice()) {
                    let folded_pattern = text::fold_text(name.as_str());
                    let rule = PatternRule {
                        pattern: name,
                        folded_pattern,
                        score: number,
                        modifiers,
                    };
                    let ghost before = self.config.pattern_rules@;
                    let ghost model = rule_model(rule);
                    self.config.pattern_rules.push(rule);
                    proof {
                        assert(rule_models(self.config.pattern_rules@) =~= rule_models(before).push(
                            model,
                        ));
                    }
                }
            }
        }
    }
}

/// Reads a configuration. Rules that a text does not give have no weight.
pub fn parse_scoring_config(content: &str) -> (r: ScoringConfig)
    ensures
        weights(r) == described_config(content@).weights,
        rule_models(r.pattern_rules@) == described_config(content@).rules,
{
    let lines = text::split_lines(content);
    let ghost all = text::lines(content@);
    let mut reading = Reading {
        section: String::new(),
        config: ScoringConfig {
            recent_first_launch_score: 0,
            recent_launch_increment: 0,
            exact_match_bonus: 0,
            exact_word_bonus: 0,
            prefix_match_bonus: 0,
            word_boundary_bonus: 0,
            consecutive_match_bonus: 0,
            acronym_match_bonus: 0,
            leftmost_match_bonus: 0,
            leftmost_distance_penalty: 0,
            length_score_weight: 0,
            compact_match_bonus: 0,
            recent_score_ceiling: 0,
            explicit_folder_name_match_adjustment: 0,
            folder_score_as_file_score_percent: 100,
            path_depth_penalty: 0,
            recency_date_bonus: 0,
            recency_date_enabled: false,
            pattern_rules: Vec::new(),
        },
    };
    let mut i: usize = 0;
    proof {
        assert(all.len() == lines@.len());
        assert(reading.section@ =~= Seq::<char>::empty());
        assert(rule_models(reading.config.pattern_rules@) =~= Seq::<RuleModel>::empty());
    }
    while i < lines.len()
        invariant
            i <= lines.len(),
            all == text::texts(lines@),
            reading.is(config_after(all, i as int)),
        decreases lines.len() - i,
    {
        proof {
            assert(all[i as int] == lines@[i as int]@);
        }
        reading.step(lines[i].as_str());
        i += 1;
    }
    reading.config
}


// ---------------------------------------------------------------------------
// What a rule sets
// ---------------------------------------------------------------------------

proof fn lemma_shapes_of_names()
    ensures
        "Recent First Launch Score"@.len() == 25 && "Recent First Launch Score"@[0] == 'R' && "Recent First Launch Score"@[1] == 'e',
        "Recent Launch Increment"@.len() == 23 && "Recent Launch Increment"@[0] == 'R' && "Recent Launch Increment"@[1] == 'e',
        "Exact Match Bonus"@.len() == 17 && "Exact Match Bonus"@[0] == 'E' && "Exact Match Bonus"@[1] == 'x',
        "Exact Word Bonus"@.len() == 16 && "Exact Word Bonus"@[0] == 'E' && "Exact Word Bonus"@[1] == 'x',
        "Prefix Match Bonus"@.len() == 18 && "Prefix Match Bonus"@[0] == 'P' && "Prefix Match Bonus"@[1] == 'r',
        "Word Boundary Bonus"@.len() == 19 && "Word Boundary Bonus"@[0] == 'W' && "Word Boundary Bonus"@[1] == 'o',
        "Consecutive Match Bonus"@.len() == 23 && "Consecutive Match Bonus"@[0] == 'C' && "Consecutive Match Bonus"@[1] == 'o',
        "Acronym Match Bonus"@.len() == 19 && "Acronym Match Bonus"@[0] == 'A' && "Acronym Match Bonus"@[1] == 'c',
        "Leftmost Match Bonus"@.len() == 20 && "Leftmost Match Bonus"@[0] == 'L' && "Leftmost Match Bonus"@[1] == 'e',
        "Leftmost Distance Penalty"@.len() == 25 && "Leftmost Distance Penalty"@[0] == 'L' && "Leftmost Distance Penalty"@[1] == 'e',
        "Length Score Weight"@.len() == 19 && "Length Score Weight"@[0] == 'L' && "Length Score Weight"@[1] == 'e',
        "Compact Match Bonus"@.len() == 19 && "Compact Match Bonus"@[0] == 'C' && "Compact Match Bonus"@[1] == 'o',
        "Recent Score Ceiling"@.len() == 20 && "Recent Score Ceiling"@[0] == 'R' && "Recent Score Ceiling"@[1] == 'e',
        "Explicit Folder Name Match Adjustment"@.len() == 37 && "Explicit Folder Name Match Adjustment"@[0] == 'E' && "Explicit Folder Name Match Adjustment"@[1] == 'x',
        "Folder Score As % of File Score"@.len() == 31 && "Folder Score As % of File Score"@[0] == 'F' && "Folder Score As % of File Score"@[1] == 'o',
        "Path Depth Penalty"@.len() == 18 && "Path Depth Penalty"@[0] == 'P' && "Path Depth Penalty"@[1] == 'a',
        "Recency Date Bonus"@.len() == 18 && "Recency Date Bonus"@[0] == 'R' && "Recency Date Bonus"@[1] == 'e',
{
    reveal_strlit("Recent First Launch Score");
    reveal_strlit("Recent Launch Increment");
    reveal_strlit("Exact Match Bonus");
    reveal_strlit("Exact Word Bonus");
    reveal_strlit("Prefix Match Bonus");
    reveal_strlit("Word Boundary Bonus");
    reveal_strlit("Consecutive Match Bonus");
    reveal_strlit("Acronym Match Bonus");
    reveal_strlit("Leftmost Match Bonus");
    reveal_strlit("Leftmost Distance Penalty");
    reveal_strlit("Length Score Weight");
    reveal_strlit("Compact Match Bonus");
    reveal_strlit("Recent Score Ceiling");
    reveal_strlit("Explicit Folder Name Match Adjustment");
    reveal_strlit("Folder Score As % of File Score");
    reveal_strlit("Path Depth Penalty");
    reveal_strlit("Recency Date Bonus");
}

/// A rule that is on sets its own weight to its number, and no other.
pub proof fn lemma_each_rule_sets_its_weight(w: Weights, n: i32)
    ensures
        with_rule(w, "Recent First Launch Score"@, Some(n), true) == (Weights { recent_first_launch_score: n, ..w }),
        with_rule(w, "Recent Launch Increment"@, Some(n), true) == (Weights { recent_launch_increment: n, ..w }),
        with_rule(w, "Exact Match Bonus"@, Some(n), true) == (Weights { exact_match_bonus: n, ..w }),
        with_rule(w, "Exact Word Bonus"@, Some(n), true) == (Weights { exact_word_bonus: n, ..w }),
        with_rule(w, "Prefix Match Bonus"@, Some(n), true) == (Weights { prefix_match_bonus: n, ..w }),
        with_rule(w, "Word Boundary Bonus"@, Some(n), true) == (Weights { word_boundary_bonus: n, ..w }),
        with_rule(w, "Consecutive Match Bonus"@, Some(n), true) == (Weights { consecutive_match_bonus: n, ..w }),
        with_rule(w, "Acronym Match Bonus"@, Some(n), true) == (Weights { acronym_match_bonus: n, ..w }),
        with_rule(w, "Leftmost Match Bonus"@, Some(n), true) == (Weights { leftmost_match_bonus: n, ..w }),
        with_rule(w, "Leftmost Distance Penalty"@, Some(n), true) == (Weights { leftmost_distance_penalty: n, ..w }),
        n >= 0 ==> with_rule(w, "Length Score Weight"@, Some(n), true) == (Weights { length_score_weight: n, ..w }),
        n >= 0 ==> with_rule(w, "Compact Match Bonus"@, Some(n), true) == (Weights { compact_match_bonus: n, ..w }),
        with_rule(w, "Recent Score Ceiling"@, Some(n), true) == (Weights { recent_score_ceiling: n, ..w }),
        with_rule(w, "Explicit Folder Name Match Adjustment"@, Some(n), true) == (Weights { explicit_folder_name_match_adjustment: n, ..w }),
        n >= 0 ==> with_rule(w, "Folder Score As % of File Score"@, Some(n), true) == (Weights { folder_score_as_file_score_percent: n, ..w }),
        with_rule(w, "Path Depth Penalty"@, Some(n), true) == (Weights { path_depth_penalty: n, ..w }),
        with_rule(w, "Recency Date Bonus"@, Some(n), true) == (Weights {
            recency_date_bonus: n,
            recency_date_enabled: true,
            ..w
        }),
{
    lemma_shapes_of_names();
}

/// A rule that is off adds nothing; without the ceiling the history is not cut down.
pub proof fn lemma_rules_that_are_off(w: Weights, value: Option<i32>)
    ensures
        with_rule(w, "Recent First Launch Score"@, value, false) == (Weights { recent_first_launch_score: 0, ..w }),
        with_rule(w, "Recent Launch Increment"@, value, false) == (Weights { recent_launch_increment: 0, ..w }),
        with_rule(w, "Exact Match Bonus"@, value, false) == (Weights { exact_match_bonus: 0, ..w }),
        with_rule(w, "Exact Word Bonus"@, value, false) == (Weights { exact_word_bonus: 0, ..w }),
        with_rule(w, "Prefix Match Bonus"@, value, false) == (Weights { prefix_match_bonus: 0, ..w }),
        with_rule(w, "Word Boundary Bonus"@, value, false) == (Weights { word_boundary_bonus: 0, ..w }),
        with_rule(w, "Consecutive Match Bonus"@, value, false) == (Weights { consecutive_match_bonus: 0, ..w }),
        with_rule(w, "Acronym Match Bonus"@, value, false) == (Weights { acronym_match_bonus: 0, ..w }),
        with_rule(w, "Leftmost Match Bonus"@, value, false) == (Weights { leftmost_match_bonus: 0, ..w }),
        with_rule(w, "Leftmost Distance Penalty"@, value, false) == (Weights { leftmost_distance_penalty: 0, ..w }),
        with_rule(w, "Length Score Weight"@, value, false) == (Weights { length_score_weight: 0, ..w }),
        with_rule(w, "Compact Match Bonus"@, value, false) == (Weights { compact_match_bonus: 0, ..w }),
        with_rule(w, "Recent Score Ceiling"@, value, false) == (Weights { recent_score_ceiling: i32::MAX, ..w }),
        with_rule(w, "Explicit Folder Name Match Adjustment"@, value, false) == (Weights { explicit_folder_name_match_adjustment: 0, ..w }),
        with_rule(w, "Folder Score As % of File Score"@, value, false) == (Weights { folder_score_as_file_score_percent: 0, ..w }),
        with_rule(w, "Path Depth Penalty"@, value, false) == (Weights { path_depth_penalty: 0, ..w }),
        !with_rule(w, "Recency Date Bonus"@, value, false).recency_date_enabled,
{
    lemma_shapes_of_names();
}

/// What is no number changes no weight, and some weights are never below nothing.
pub proof fn lemma_what_is_no_number(w: Weights, name: Seq<char>, n: i32)
    ensures
        name != "Recency Date Bonus"@ ==> with_rule(w, name, None, true) == w,
        with_rule(w, "Recency Date Bonus"@, None, true).recency_date_bonus == w.recency_date_bonus,
        n < 0 ==> with_rule(w, "Length Score Weight"@, Some(n), true) == w,
        n < 0 ==> with_rule(w, "Compact Match Bonus"@, Some(n), true) == w,
        n < 0 ==> with_rule(w, "Folder Score As % of File Score"@, Some(n), true) == w,
        !heuristic_names().contains(name) ==> with_rule(w, name, Some(n), true) == w,
        !heuristic_names().contains(name) ==> with_rule(w, name, Some(n), false) == w,
{
    lemma_shapes_of_names();
    let names = heuristic_names();
    assert(names[0] == "Recent First Launch Score"@);
    assert(names[1] == "Recent Launch Increment"@);
    assert(names[2] == "Exact Match Bonus"@);
    assert(names[3] == "Exact Word Bonus"@);
    assert(names[4] == "Prefix Match Bonus"@);
    assert(names[5] == "Word Boundary Bonus"@);
    assert(names[6] == "Consecutive Match Bonus"@);
    assert(names[7] == "Acronym Match Bonus"@);
    assert(names[8] == "Leftmost Match Bonus"@);
    assert(names[9] == "Leftmost Distance Penalty"@);
    assert(names[10] == "Length Score Weight"@);
    assert(names[11] == "Compact Match Bonus"@);
    assert(names[12] == "Recent Score Ceiling"@);
    assert(names[13] == "Explicit Folder Name Match Adjustment"@);
    assert(names[14] == "Folder Score As % of File Score"@);
    assert(names[15] == "Path Depth Penalty"@);
    assert(names[16] == "Recency Date Bonus"@);
}

/// Headings are read without their brackets; what stands under another heading than the two
/// sets nothing, and comments never do.
pub proof fn lemma_what_stands_where(state: ConfigState, line: Seq<char>)
    ensures
        says_nothing(bare_line(line)) ==> config_step(state, line) == state,
        !says_nothing(bare_line(line)) && heading(bare_line(line)) is Some ==> config_step(state, line)
            == (ConfigState { section: heading(bare_line(line))->0, ..state }),
        heading(bare_line(line)) is None && state.section != "HeuristicScoring"@ && state.section
            != "PatternScoring"@ ==> config_step(state, line) == state,
        heading(bare_line(line)) is None && state.section == "HeuristicScoring"@ ==> config_step(
            state,
            line,
        ).rules == state.rules,
        heading(bare_line(line)) is None && state.section == "PatternScoring"@ ==> config_step(
            state,
            line,
        ).weights == state.weights && (config_step(state, line).rules == state.rules
            || config_step(state, line).rules.drop_last() == state.rules),
        says_nothing(Seq::empty()),
{
    reveal_strlit("HeuristicScoring");
    reveal_strlit("PatternScoring");
    assert("HeuristicScoring"@[0] == 'H' && "PatternScoring"@[0] == 'P');
    let after = config_step(state, line).rules;
    if after.len() == state.rules.len() + 1 {
        assert(after.drop_last() =~= state.rules);
    }
}

/// A line with the sign for rules that are off is never on, whatever else stands in it; a line
/// without either sign is no rule.
pub proof fn lemma_signs_of_rules(key: Seq<char>, value: Seq<char>, line: Seq<char>)
    requires
        !text::has_infix(key + "="@ + value, "<<<"@),
        !key.contains('='),
    ensures
        rule_cut(key + "="@ + value) == Some((true, key, value)),
        text::has_infix(line, "<<<"@) ==> (rule_cut(line) matches Some((enabled, _, _)) && !enabled),
        rule_cut(line) is None <==> !text::has_infix(line, "<<<"@) && !line.contains('='),
{
    reveal_strlit("=");
    assert("="@ =~= seq!['=']);
    let all = key + "="@ + value;
    document::lemma_cut_at_the_first(all, "<<<"@);
    if let Some((before, after)) = document::cut(all, "<<<"@) {
        text::lemma_stands_in(before, "<<<"@, after);
    }
    let n = key.len() as int;
    assert(all.subrange(n, n + 1) =~= "="@);
    assert forall|k: int| 0 <= k < n implies !text::occurs_at(all, "="@, k) by {
        if text::occurs_at(all, "="@, k) {
            assert(all.subrange(k, k + 1)[0] == key[k]);
        }
    }
    document::lemma_place_is(all, "="@, 0, n);
    assert(all.take(n) =~= key);
    assert(all.skip(n + 1) =~= value);
    document::lemma_cut_at_the_first(line, "<<<"@);
    if let Some((before, after)) = document::cut(line, "<<<"@) {
        text::lemma_stands_in(before, "<<<"@, after);
    }
    document::lemma_cut_at_the_first(line, "="@);
    if let Some((before, after)) = document::cut(line, "="@) {
        assert((before + "="@ + after)[before.len() as int] == '=');
    } else if line.contains('=') {
        let i = choose|i: int| 0 <= i < line.len() && line[i] == '=';
        assert(line.subrange(i, i + 1) =~= "="@);
        assert(text::occurs_at(line, "="@, i));
    }
}

/// The score of a rule stands before the first bar.
pub proof fn lemma_scores_before_the_bar(score: Seq<char>, rest: Seq<char>)
    requires
        !score.contains('|'),
        !rest.contains('|'),
    ensures
        score_text(score) == text::trimmed(score),
        score_text(score + seq!['|'] + rest) == text::trimmed(score),
{
    let none = Seq::<char>::empty();
    assert(text::pieces(none, '|') =~= seq![none]);
    text::lemma_pieces_add(none, score, '|');
    assert(none + score =~= score);
    assert(text::pieces(score, '|') =~= seq![score]);
    let front = score + seq!['|'];
    assert(front.drop_last() =~= score);
    assert(text::pieces(front, '|') =~= seq![score, none]);
    text::lemma_pieces_add(front, rest, '|');
    assert(text::pieces(front + rest, '|')[0] == score);
}

/// Comments begin with one of two signs; every other line that is not empty says something.
pub proof fn lemma_which_lines_say_nothing(first: char, rest: Seq<char>)
    ensures
        says_nothing(seq![first] + rest) <==> first == '#' || first == ';',
        says_nothing(Seq::empty()),
{
    assert((seq![first] + rest)[0] == first);
}

} // verus!
