//! The scoring rules as a document: lists of rules, the rules that come with the
//! program, and putting rules into a text without touching anything else.

use crate::aliases;
use crate::document;
use crate::index_roots;
use crate::places;
use crate::scoring;
use crate::scoring_rules;
use crate::scoring_rules::RuleModel;
use crate::text;
use crate::types::{PatternRule, ScoringConfig};
use vstd::prelude::*;

verus! {

// ---------------------------------------------------------------------------
// Rules in a list
// ---------------------------------------------------------------------------

/// The section of a rule.
#[derive(Clone, Copy, Debug, PartialEq, Eq, Structural)]
pub enum ScoringRuleKind {
    Heuristic,
    Pattern,
}

/// A rule in a list.
#[derive(Debug, PartialEq, Eq)]
pub struct ScoringRuleEntry {
    pub kind: ScoringRuleKind,
    pub key: String,
    pub value: String,
    pub modifiers: Vec<String>,
    pub enabled: bool,
}

/// What a rule in a list says.
#[verifier::ext_equal]
pub struct EntryModel {
    pub kind: ScoringRuleKind,
    pub key: Seq<char>,
    pub value: Seq<char>,
    pub modifiers: Seq<Seq<char>>,
    pub enabled: bool,
}

impl View for ScoringRuleEntry {
    type V = EntryModel;

    open spec fn view(&self) -> EntryModel {
        EntryModel {
            kind: self.kind,
            key: self.key@,
            value: self.value@,
            modifiers: text::texts(self.modifiers@),
            enabled: self.enabled,
        }
    }
}

/// What rules say.
pub open spec fn entry_models(entries: Seq<ScoringRuleEntry>) -> Seq<EntryModel> {
    Seq::new(entries.len(), |i: int| entries[i]@)
}

/// What is known after some lines: the section and the rules.
pub struct ListState {
    pub section: Seq<char>,
    pub entries: Seq<EntryModel>,
}

/// The state after one more line.
pub open spec fn list_step(state: ListState, line: Seq<char>) -> ListState {
    let bare = scoring_rules::bare_line(line);
    if bare.len() == 0 || bare[0] == '#' {
        state
    } else if scoring_rules::heading(bare) is Some {
        ListState { section: scoring_rules::heading(bare)->0, ..state }
    } else {
        match scoring_rules::rule_cut(bare) {
            None => state,
            Some((enabled, raw_key, raw_value)) => {
                let key = text::trimmed(raw_key);
                let value = scoring_rules::score_text(text::trimmed(raw_value));
                if key.len() == 0 || scoring_rules::number_in(value) is None {
                    state
                } else if state.section == "HeuristicScoring"@ {
                    if scoring_rules::heuristic_names().contains(text::trimmed(key)) {
                        ListState {
                            entries: state.entries.push(
                                EntryModel {
                                    kind: ScoringRuleKind::Heuristic,
                                    key,
                                    value,
                                    modifiers: Seq::empty(),
                                    enabled,
                                },
                            ),
                            ..state
                        }
                    } else {
                        state
                    }
                } else if state.section == "PatternScoring"@ {
                    ListState {
                        entries: state.entries.push(
                            EntryModel {
                                kind: ScoringRuleKind::Pattern,
                                key,
                                value,
                                modifiers: scoring_rules::modifiers_in(text::trimmed(raw_value)),
                                enabled,
                            },
                        ),
                        ..state
                    }
                } else {
                    state
                }
            },
        }
    }
}

/// The state after the first `n` lines.
pub open spec fn list_after(all: Seq<Seq<char>>, n: int) -> ListState
    decreases n,
{
    if n <= 0 {
        ListState { section: Seq::empty(), entries: Seq::empty() }
    } else {
        list_step(list_after(all, n - 1), all[n - 1])
    }
}

/// The rules of a text.
pub open spec fn listed(content: Seq<char>) -> Seq<EntryModel> {
    list_after(text::lines(content), text::lines(content).len() as int).entries
}

struct Listing {
    section: String,
    entries: Vec<ScoringRuleEntry>,
}

impl Listing {
    spec fn is(&self, state: ListState) -> bool {
        self.section@ == state.section && entry_models(self.entries@) == state.entries
    }

    fn add_entry(&mut self, entry: ScoringRuleEntry)
        ensures
            entry_models(final(self).entries@) == entry_models(old(self).entries@).push(entry@),
            final(self).section@ == old(self).section@,
    {
        let ghost before = self.entries@;
        let ghost model = entry@;
        self.entries.push(entry);
        proof {
            assert(entry_models(self.entries@) =~= entry_models(before).push(model));
        }
    }

    fn step(&mut self, line: &str)
        ensures
            forall|state: ListState| #[trigger]
                old(self).is(state) ==> final(self).is(list_step(state, line@)),
    {
        let chars = text::chars_of(line);
        let bare = scoring_rules::bare_of(chars.as_slice());
        if bare.len() == 0 || bare[0] == '#' {
            return;
        }
        if let Some(section) = scoring_rules::heading_of(bare) {
            self.section = section;
            return;
        }
        if let Some((enabled, raw_key, raw_value)) = scoring_rules::cut_rule(bare) {
            let key = text::string_of(text::trim_chars(raw_key));
            let plain = text::string_of(text::trim_chars(raw_value));
            let (value, modifiers): (String, Vec<String>) =
                scoring_rules::parse_scoring_value_and_modifiers(plain.as_str());
            let digits = text::chars_of(value.as_str());
            let is_number = match text::parse_i32(digits.as_slice()) {
                Some(_) => true,
                None => false,
            };
            if key.as_str().is_empty() || !is_number {
                return;
            }
            if text::same_text(self.section.as_str(), "HeuristicScoring") {
                let known = match scoring_rules::heuristic_rule_identity(key.as_str()) {
                    Some(_) => true,
                    None => false,
                };
                if known {
                    let none: Vec<String> = Vec::new();
                    proof {
                        assert(text::texts(none@) =~= Seq::<Seq<char>>::empty());
                    }
                    self.add_entry(
                        ScoringRuleEntry {
                            kind: ScoringRuleKind::Heuristic,
                            key,
                            value,
                            modifiers: none,
                            enabled,
                        },
                    );
                }
            } else if text::same_text(self.section.as_str(), "PatternScoring") {
                self.add_entry(
                    ScoringRuleEntry {
                        kind: ScoringRuleKind::Pattern,
                        key,
                        value,
                        modifiers,
                        enabled,
                    },
                );
            }
        }
    }
}

/// The rules of a text: those with a number for a value, under a known heading, and
/// under the first of them with a known name.
pub fn parse_scoring_rule_entries(content: &str) -> (r: Vec<ScoringRuleEntry>)
    ensures
        entry_models(r@) == listed(content@),
{
    let lines = text::split_lines(content);
    let ghost all = text::lines(content@);
    let mut listing = Listing { section: String::new(), entries: Vec::new() };
    let mut i: usize = 0;
    proof {
        assert(all.len() == lines@.len());
        assert(listing.section@ =~= Seq::<char>::empty());
        assert(entry_models(listing.entries@) =~= Seq::<EntryModel>::empty());
    }
    while i < lines.len()
        invariant
            i <= lines.len(),
            all == text::texts(lines@),
            listing.is(list_after(all, i as int)),
        decreases lines.len() - i,
    {
        proof {
            assert(all[i as int] == lines@[i as int]@);
        }
        listing.step(lines[i].as_str());
        i += 1;
    }
    listing.entries
}

/// The line of a rule.
pub open spec fn rule_line(entry: EntryModel) -> Seq<char> {
    text::trimmed(entry.key) + (if entry.enabled {
        "="@
    } else {
        "<<<"@
    }) + text::trimmed(entry.value) + (if entry.kind == ScoringRuleKind::Pattern
        && entry.modifiers.len() > 0 {
        " | modifiers="@ + scoring::keywords_shown(entry.modifiers)
    } else {
        Seq::empty()
    })
}

/// Writes the line of a rule.
pub fn format_scoring_rule_line(entry: &ScoringRuleEntry) -> (r: String)
    ensures
        r@ == rule_line(entry@),
{
    let mut out = text::cat3(
        text::trim_text(entry.key.as_str()).as_str(),
        if entry.enabled {
            "="
        } else {
            "<<<"
        },
        text::trim_text(entry.value.as_str()).as_str(),
    );
    if entry.kind == ScoringRuleKind::Pattern && entry.modifiers.len() > 0 {
        out.append(" | modifiers=");
        out.append(
            scoring_rules::scoring_modifiers_display(entry.modifiers.as_slice()).as_str(),
        );
    }
    proof {
        assert(out@ =~= rule_line(entry@));
    }
    out
}

/// The lines of the first `n` rules of a section.
pub open spec fn section_lines(
    entries: Seq<EntryModel>,
    kind: ScoringRuleKind,
    n: int,
) -> Seq<Seq<char>>
    decreases n,
{
    if n <= 0 {
        Seq::empty()
    } else if entries[n - 1].kind == kind {
        section_lines(entries, kind, n - 1).push(rule_line(entries[n - 1]))
    } else {
        section_lines(entries, kind, n - 1)
    }
}

fn lines_of_section(entries: &[ScoringRuleEntry], kind: ScoringRuleKind) -> (r: Vec<String>)
    ensures
        text::texts(r@) == section_lines(entry_models(entries@), kind, entries@.len() as int),
{
    let ghost all = entry_models(entries@);
    let mut out: Vec<String> = Vec::new();
    let mut i: usize = 0;
    proof {
        assert(text::texts(out@) =~= Seq::<Seq<char>>::empty());
    }
    while i < entries.len()
        invariant
            i <= entries.len(),
            all == entry_models(entries@),
            text::texts(out@) == section_lines(all, kind, i as int),
        decreases entries.len() - i,
    {
        let ghost before = out@;
        proof {
            assert(all[i as int] == entries@[i as int]@);
        }
        if entries[i].kind == kind {
            let line = format_scoring_rule_line(&entries[i]);
            out.push(line);
            proof {
                assert(text::texts(out@) =~= text::texts(before).push(line@));
            }
        }
        i += 1;
    }
    out
}

/// The lines of a document with nothing but rules.
pub open spec fn document_lines(entries: Seq<EntryModel>) -> Seq<Seq<char>> {
    seq![
        "# Flash Launch scoring rules."@,
        "# Use <<< instead of = to disable a rule."@,
        ""@,
        "[HeuristicScoring]"@,
    ] + section_lines(entries, ScoringRuleKind::Heuristic, entries.len() as int) + seq![
        ""@,
        "[PatternScoring]"@,
    ] + section_lines(entries, ScoringRuleKind::Pattern, entries.len() as int)
}

/// A document with nothing but the given rules.
pub fn scoring_rule_entries_to_text(entries: &[ScoringRuleEntry]) -> (r: String)
    ensures
        r@ == text::join(document_lines(entry_models(entries@)), "\r\n"@) + "\r\n"@,
{
    let mut lines: Vec<String> = vec![
        "# Flash Launch scoring rules.".to_owned(),
        "# Use <<< instead of = to disable a rule.".to_owned(),
        "".to_owned(),
        "[HeuristicScoring]".to_owned(),
    ];
    let ghost head = text::texts(lines@);
    let first = lines_of_section(entries, ScoringRuleKind::Heuristic);
    document::append_texts(&mut lines, first.as_slice());
    let between: Vec<String> = vec!["".to_owned(), "[PatternScoring]".to_owned()];
    document::append_texts(&mut lines, between.as_slice());
    let second = lines_of_section(entries, ScoringRuleKind::Pattern);
    document::append_texts(&mut lines, second.as_slice());
    proof {
        assert(head =~= seq![
            "# Flash Launch scoring rules."@,
            "# Use <<< instead of = to disable a rule."@,
            ""@,
            "[HeuristicScoring]"@,
        ]);
        assert(text::texts(between@) =~= seq![""@, "[PatternScoring]"@]);
    }
    let mut out = text::join_texts(lines.as_slice(), "\r\n");
    out.append("\r\n");
    out
}

// ---------------------------------------------------------------------------
// The rules that come with the program
// ---------------------------------------------------------------------------

/// A pattern and its score.
pub open spec fn plain_rule(pattern: Seq<char>, score: int) -> RuleModel {
    RuleModel {
        pattern,
        folded_pattern: text::fold(pattern),
        score: score as i32,
        modifiers: Seq::empty(),
    }
}

/// The patterns that come with the program.
pub open spec fn default_patterns() -> Seq<RuleModel> {
    seq![
        plain_rule("*.lnk"@, 50),
        plain_rule("*.exe"@, 150),
        plain_rule("*.bak"@, -100),
        plain_rule("*.tmp"@, -100),
        plain_rule("*.chm"@, -50),
        plain_rule("*help*"@, -100),
        plain_rule("*uninstall*"@, -200),
        plain_rule("*readme*"@, -100),
        plain_rule("*read me*"@, -100),
    ]
}

fn plain(pattern: &str, score: i32) -> (r: PatternRule)
    ensures
        scoring_rules::rule_model(r) == plain_rule(pattern@, score as int),
{
    let modifiers: Vec<String> = Vec::new();
    proof {
        assert(text::texts(modifiers@) =~= Seq::<Seq<char>>::empty());
    }
    PatternRule {
        pattern: pattern.to_owned(),
        folded_pattern: text::fold_text(pattern),
        score,
        modifiers,
    }
}

/// The patterns that come with the program.
pub fn default_pattern_rules() -> (r: Vec<PatternRule>)
    ensures
        scoring_rules::rule_models(r@) == default_patterns(),
{
    let rules: Vec<PatternRule> = vec![
        plain("*.lnk", 50),
        plain("*.exe", 150),
        plain("*.bak", -100),
        plain("*.tmp", -100),
        plain("*.chm", -50),
        plain("*help*", -100),
        plain("*uninstall*", -200),
        plain("*readme*", -100),
        plain("*read me*", -100),
    ];
    proof {
        assert(scoring_rules::rule_models(rules@) =~= default_patterns());
    }
    rules
}

impl Default for ScoringConfig {
    /// The configuration that comes with the program.
    fn default() -> (r: ScoringConfig)
        ensures
            scoring_rules::weights(r) == (scoring_rules::Weights {
                recent_first_launch_score: 90,
                recent_launch_increment: 5,
                exact_match_bonus: 250,
                exact_word_bonus: 75,
                prefix_match_bonus: 110,
                word_boundary_bonus: 60,
                consecutive_match_bonus: 40,
                acronym_match_bonus: 75,
                leftmost_match_bonus: 25,
                leftmost_distance_penalty: 5,
                length_score_weight: 90,
                compact_match_bonus: 10,
                recent_score_ceiling: 250,
                explicit_folder_name_match_adjustment: 40,
                folder_score_as_file_score_percent: 90,
                path_depth_penalty: 4,
                recency_date_bonus: 50,
                recency_date_enabled: false,
            }),
            scoring_rules::rule_models(r.pattern_rules@) == default_patterns(),
    {
        ScoringConfig {
            recent_first_launch_score: 90,
            recent_launch_increment: 5,
            exact_match_bonus: 250,
            exact_word_bonus: 75,
            prefix_match_bonus: 110,
            word_boundary_bonus: 60,
            consecutive_match_bonus: 40,
            acronym_match_bonus: 75,
            leftmost_match_bonus: 25,
            leftmost_distance_penalty: 5,
            length_score_weight: 90,
            compact_match_bonus: 10,
            recent_score_ceiling: 250,
            explicit_folder_name_match_adjustment: 40,
            folder_score_as_file_score_percent: 90,
            path_depth_penalty: 4,
            recency_date_bonus: 50,
            recency_date_enabled: false,
            pattern_rules: default_pattern_rules(),
        }
    }
}

/// The lines of the document that comes with the program, up to its patterns.
pub open spec fn default_head() -> Seq<Seq<char>> {
    seq![
        "# Flash Launch scoring rules."@,
        "# Use <<< instead of = to disable a rule."@,
        ""@,
        "[HeuristicScoring]"@,
        "# Strong boost when the query exactly matches the file/folder name."@,
        "Exact Match Bonus=250"@,
        "# Boost when the query matches a complete word."@,
        "Exact Word Bonus=75"@,
        "# Boost when the name starts with the query."@,
        "Prefix Match Bonus=110"@,
        "# Boost when the query starts at a word boundary."@,
        "Word Boundary Bonus=60"@,
        "# Boost when the query appears as one contiguous substring."@,
        "Consecutive Match Bonus=40"@,
        "# Boost when the query matches initials from separated words."@,
        "Acronym Match Bonus=75"@,
        "# Maximum boost for a match at the left edge."@,
        "Leftmost Match Bonus=25"@,
        "# Points removed from the leftmost boost per preceding character."@,
        "Leftmost Distance Penalty=5"@,
        "# Weight for query length relative to the full filename length."@,
        "Length Score Weight=90"@,
        "# Maximum boost for adjacent fuzzy-match character pairs."@,
        "Compact Match Bonus=10"@,
        "# Maximum score contributed by the fuzzy matching formula."@,
        "# Starting score for the first successful launch of a recent item."@,
        "Recent First Launch Score=90"@,
        "# Score added each time the same recent item is launched again."@,
        "Recent Launch Increment=5"@,
        "# Maximum recent score used for ranking."@,
        "Recent Score Ceiling=250"@,
        "# Boost for script files that can be launched directly."@,
        "# Boost when the query explicitly names a parent folder."@,
        "Explicit Folder Name Match Adjustment=40"@,
        "# Penalty per folder level relative to the owning Search Folder."@,
        "Path Depth Penalty=4"@,
        "# Small penalty for long paths, applied per path length unit."@,
        "# Path length where the long-path penalty begins."@,
        "# Boost for folder results."@,
        "Folder Score As % of File Score=90"@,
        "# Optional modified-date boost."@,
        "Recency Date Bonus<<<50"@,
        ""@,
        "[PatternScoring]"@,
    ]
}

/// The lines of patterns.
pub open spec fn pattern_lines(rules: Seq<RuleModel>) -> Seq<Seq<char>> {
    Seq::new(rules.len(), |i: int| rules[i].pattern + "="@ + text::decimal(rules[i].score as int))
}

/// The document that comes with the program.
pub open spec fn default_text() -> Seq<char> {
    text::join(default_head() + pattern_lines(default_patterns()), "\r\n"@) + "\r\n"@
}

/// The document that comes with the program.
pub fn default_scoring_text() -> (r: String)
    ensures
        r@ == default_text(),
{
    let head: Vec<&str> = vec![
        "# Flash Launch scoring rules.",
        "# Use <<< instead of = to disable a rule.",
        "",
        "[HeuristicScoring]",
        "# Strong boost when the query exactly matches the file/folder name.",
        "Exact Match Bonus=250",
        "# Boost when the query matches a complete word.",
        "Exact Word Bonus=75",
        "# Boost when the name starts with the query.",
        "Prefix Match Bonus=110",
        "# Boost when the query starts at a word boundary.",
        "Word Boundary Bonus=60",
        "# Boost when the query appears as one contiguous substring.",
        "Consecutive Match Bonus=40",
        "# Boost when the query matches initials from separated words.",
        "Acronym Match Bonus=75",
        "# Maximum boost for a match at the left edge.",
        "Leftmost Match Bonus=25",
        "# Points removed from the leftmost boost per preceding character.",
        "Leftmost Distance Penalty=5",
        "# Weight for query length relative to the full filename length.",
        "Length Score Weight=90",
        "# Maximum boost for adjacent fuzzy-match character pairs.",
        "Compact Match Bonus=10",
        "# Maximum score contributed by the fuzzy matching formula.",
        "# Starting score for the first successful launch of a recent item.",
        "Recent First Launch Score=90",
        "# Score added each time the same recent item is launched again.",
        "Recent Launch Increment=5",
        "# Maximum recent score used for ranking.",
        "Recent Score Ceiling=250",
        "# Boost for script files that can be launched directly.",
        "# Boost when the query explicitly names a parent folder.",
        "Explicit Folder Name Match Adjustment=40",
        "# Penalty per folder level relative to the owning Search Folder.",
        "Path Depth Penalty=4",
        "# Small penalty for long paths, applied per path length unit.",
        "# Path length where the long-path penalty begins.",
        "# Boost for folder results.",
        "Folder Score As % of File Score=90",
        "# Optional modified-date boost.",
        "Recency Date Bonus<<<50",
        "",
        "[PatternScoring]",
    ];
    let ghost all = default_head();
    proof {
        assert(head@.len() == all.len());
        assert forall|i: int| 0 <= i < head@.len() implies (#[trigger] head@[i])@ == all[i] by {}
    }
    let mut lines: Vec<String> = Vec::new();
    let mut i: usize = 0;
    proof {
        assert(text::texts(lines@) =~= all.take(0));
    }
    while i < head.len()
        invariant
            i <= head.len(),
            head@.len() == all.len(),
            forall|k: int| 0 <= k < head@.len() ==> (#[trigger] head@[k])@ == all[k],
            text::texts(lines@) == all.take(i as int),
        decreases head.len() - i,
    {
        let ghost before = lines@;
        lines.push(head[i].to_owned());
        i += 1;
        proof {
            assert(head@[i - 1]@ == all[i - 1]);
            assert(text::texts(lines@) =~= text::texts(before).push(all[i - 1]));
            assert(text::texts(lines@) =~= all.take(i as int));
        }
    }
    let rules = default_pattern_rules();
    let ghost patterns = pattern_lines(default_patterns());
    let mut k: usize = 0;
    proof {
        assert(all.take(i as int) =~= all);
        assert(all + patterns.take(0) =~= all);
        assert(default_patterns().len() == rules@.len());
    }
    while k < rules.len()
        invariant
            k <= rules.len(),
            scoring_rules::rule_models(rules@) == default_patterns(),
            default_patterns().len() == rules@.len(),
            patterns == pattern_lines(default_patterns()),
            text::texts(lines@) == all + patterns.take(k as int),
        decreases rules.len() - k,
    {
        let ghost before = lines@;
        proof {
            assert(default_patterns()[k as int] == scoring_rules::rule_model(rules@[k as int]));
        }
        let line = text::cat3(
            rules[k].pattern.as_str(),
            "=",
            text::decimal_i64(rules[k].score as i64).as_str(),
        );
        lines.push(line);
        k += 1;
        proof {
            assert(text::texts(lines@) =~= text::texts(before).push(patterns[k - 1]));
            assert(text::texts(lines@) =~= all + patterns.take(k as int));
        }
    }
    proof {
        assert(patterns.take(k as int) =~= patterns);
    }
    let mut out = text::join_texts(lines.as_slice(), "\r\n");
    out.append("\r\n");
    out
}

/// The same rule: of the same section, with the same key whatever its case, and for
/// the same keywords.
pub open spec fn same_rule(a: EntryModel, b: EntryModel) -> bool {
    a.kind == b.kind && text::same_ignoring_ascii_case(a.key, b.key) && a.modifiers == b.modifiers
}

/// The first of the rules from `from` on that is the same.
pub open spec fn same_rule_from(
    rule: EntryModel,
    rules: Seq<EntryModel>,
    from: int,
) -> Option<EntryModel>
    decreases rules.len() - from,
{
    if from < 0 || from >= rules.len() {
        None
    } else if same_rule(rules[from], rule) {
        Some(rules[from])
    } else {
        same_rule_from(rule, rules, from + 1)
    }
}

/// The rule as it comes with the program.
pub fn default_scoring_rule_for(rule: &ScoringRuleEntry) -> (r: Option<ScoringRuleEntry>)
    ensures
        match same_rule_from(rule@, listed(default_text()), 0) {
            None => r is None,
            Some(model) => r matches Some(found) && found@ == model,
        },
{
    let content = default_scoring_text();
    let mut rules = parse_scoring_rule_entries(content.as_str());
    let ghost all = listed(default_text());
    let ghost whole = rules@;
    proof {
        assert(all.len() == rules@.len());
    }
    let mut i: usize = 0;
    while i < rules.len()
        invariant
            i <= rules.len(),
            rules@ == whole,
            all == listed(default_text()),
            all == entry_models(whole),
            all.len() == whole.len(),
            same_rule_from(rule@, all, 0) == same_rule_from(rule@, all, i as int),
        decreases rules.len() - i,
    {
        proof {
            assert(all[i as int] == rules@[i as int]@);
        }
        let candidate = &rules[i];
        if candidate.kind == rule.kind && aliases::same_name(
            candidate.key.as_str(),
            rule.key.as_str(),
        ) && text::same_texts(candidate.modifiers.as_slice(), rule.modifiers.as_slice()) {
            return Some(rules.remove(i));
        }
        i += 1;
    }
    None
}

/// The value of the rule as it comes with the program, as it is shown; nothing
/// where the program has no such rule.
pub fn default_scoring_rule_value(rule: &ScoringRuleEntry) -> (r: String)
    ensures
        r@ == (match same_rule_from(rule@, listed(default_text()), 0) {
            None => ""@,
            Some(found) => found.value + " ("@ + (if found.enabled {
                "On"@
            } else {
                "Off"@
            }) + ")"@,
        }),
{
    match default_scoring_rule_for(rule) {
        None => "".to_owned(),
        Some(found) => text::cat4(
            found.value.as_str(),
            " (",
            if found.enabled {
                "On"
            } else {
                "Off"
            },
            ")",
        ),
    }
}

// ---------------------------------------------------------------------------
// Missing rules
// ---------------------------------------------------------------------------

/// A rule of a text: its section, what tells it from others, and its line.
#[verifier::ext_equal]
pub struct FoundRule {
    pub section: Seq<char>,
    pub identity: Seq<char>,
    pub line: Seq<char>,
}

/// What is known after some lines: the section and the rules.
pub struct FoundState {
    pub section: Seq<char>,
    pub rules: Seq<FoundRule>,
}

/// The state after the first `n` lines.
pub open spec fn found_after(all: Seq<Seq<char>>, n: int) -> FoundState
    decreases n,
{
    if n <= 0 {
        FoundState { section: Seq::empty(), rules: Seq::empty() }
    } else {
        let before = found_after(all, n - 1);
        let line = all[n - 1];
        match scoring_rules::section_of(line) {
            Some(section) => FoundState { section, ..before },
            None => match scoring_rules::rule_identity(before.section, line) {
                Some(identity) => FoundState {
                    rules: before.rules.push(
                        FoundRule { section: before.section, identity, line },
                    ),
                    ..before
                },
                None => before,
            },
        }
    }
}

/// The rules of a text.
pub open spec fn found_rules(content: Seq<char>) -> Seq<FoundRule> {
    found_after(text::lines(content), text::lines(content).len() as int).rules
}

/// A rule of a text, as the code holds it.
pub struct RuleLine {
    pub section: String,
    pub identity: String,
    pub line: String,
}

/// What rules of a text say.
pub open spec fn rule_line_models(v: Seq<RuleLine>) -> Seq<FoundRule> {
    Seq::new(
        v.len(),
        |i: int|
            FoundRule { section: v[i].section@, identity: v[i].identity@, line: v[i].line@ },
    )
}

/// The rules of a text, with their sections.
pub fn scoring_rule_lines(content: &str) -> (r: Vec<RuleLine>)
    ensures
        rule_line_models(r@) == found_rules(content@),
{
    let lines = text::split_lines(content);
    let ghost all = text::lines(content@);
    let mut section = String::new();
    let mut out: Vec<RuleLine> = Vec::new();
    let mut i: usize = 0;
    proof {
        assert(all.len() == lines@.len());
        assert(section@ =~= Seq::<char>::empty());
        assert(rule_line_models(out@) =~= Seq::<FoundRule>::empty());
    }
    while i < lines.len()
        invariant
            i <= lines.len(),
            all == text::texts(lines@),
            section@ == found_after(all, i as int).section,
            rule_line_models(out@) == found_after(all, i as int).rules,
        decreases lines.len() - i,
    {
        let ghost before = out@;
        proof {
            assert(all[i as int] == lines@[i as int]@);
        }
        match scoring_rules::scoring_section(lines[i].as_str()) {
            Some(next) => {
                section = next;
            },
            None => {
                if let Some(identity) = scoring_rules::scoring_rule_identity(
                    section.as_str(),
                    lines[i].as_str(),
                ) {
                    let row = RuleLine { section: section.clone(), identity, line: lines[i].clone() };
                    let ghost model = FoundRule {
                        section: row.section@,
                        identity: row.identity@,
                        line: row.line@,
                    };
                    out.push(row);
                    proof {
                        assert(rule_line_models(out@) =~= rule_line_models(before).push(model));
                    }
                }
            },
        }
        i += 1;
    }
    out
}

/// A rule with the same identity is among the given ones.
pub open spec fn has_identity(rules: Seq<FoundRule>, identity: Seq<char>) -> bool {
    exists|i: int| 0 <= i < rules.len() && (#[trigger] rules[i]).identity == identity
}

/// The lines of those of the first `n` rules of a section that are missing.
pub open spec fn missing_lines(
    defaults: Seq<FoundRule>,
    present: Seq<FoundRule>,
    section: Seq<char>,
    n: int,
) -> Seq<Seq<char>>
    decreases n,
{
    if n <= 0 {
        Seq::empty()
    } else {
        let before = missing_lines(defaults, present, section, n - 1);
        let rule = defaults[n - 1];
        if rule.section == section && !has_identity(present, rule.identity) {
            before.push(rule.line)
        } else {
            before
        }
    }
}

fn collect_missing(defaults: &[RuleLine], present: &[RuleLine], section: &str) -> (r: Vec<String>)
    ensures
        text::texts(r@) == missing_lines(
            rule_line_models(defaults@),
            rule_line_models(present@),
            section@,
            defaults@.len() as int,
        ),
{
    let ghost all = rule_line_models(defaults@);
    let ghost here = rule_line_models(present@);
    let mut out: Vec<String> = Vec::new();
    let mut i: usize = 0;
    proof {
        assert(text::texts(out@) =~= Seq::<Seq<char>>::empty());
    }
    while i < defaults.len()
        invariant
            i <= defaults.len(),
            all == rule_line_models(defaults@),
            here == rule_line_models(present@),
            text::texts(out@) == missing_lines(all, here, section@, i as int),
        decreases defaults.len() - i,
    {
        let ghost before = out@;
        let mut found = false;
        let mut k: usize = 0;
        while k < present.len() && !found
            invariant
                k <= present.len(),
                i < defaults@.len(),
                all == rule_line_models(defaults@),
                here == rule_line_models(present@),
                found ==> has_identity(here, all[i as int].identity),
                !found ==> forall|m: int|
                    0 <= m < k ==> (#[trigger] here[m]).identity != all[i as int].identity,
            decreases present.len() - k,
        {
            if text::same_text(present[k].identity.as_str(), defaults[i].identity.as_str()) {
                proof {
                    assert(here[k as int].identity == all[i as int].identity);
                }
                found = true;
            }
            k += 1;
        }
        if !found && text::same_text(defaults[i].section.as_str(), section) {
            out.push(defaults[i].line.clone());
            proof {
                assert(text::texts(out@) =~= text::texts(before).push(all[i as int].line));
            }
        }
        i += 1;
    }
    out
}

/// The first line from `from` on that is the heading of a section; `-1` where none
/// is.
pub open spec fn heading_from(all: Seq<Seq<char>>, section: Seq<char>, from: int) -> int
    decreases all.len() - from,
{
    if from < 0 || from >= all.len() {
        -1
    } else if scoring_rules::section_of(all[from]) == Some(section) {
        from
    } else {
        heading_from(all, section, from + 1)
    }
}

/// The first line from `from` on that is any heading, or else the end.
pub open spec fn end_of_section(all: Seq<Seq<char>>, from: int) -> int
    decreases all.len() - from,
{
    if from < 0 || from >= all.len() {
        all.len() as int
    } else if scoring_rules::section_of(all[from]) is Some {
        from
    } else {
        end_of_section(all, from + 1)
    }
}

/// Lines with a new section at the end, behind a blank line.
pub open spec fn with_section(
    all: Seq<Seq<char>>,
    section: Seq<char>,
    more: Seq<Seq<char>>,
) -> Seq<Seq<char>> {
    let open = if all.len() > 0 && all.last().len() > 0 {
        all.push(Seq::empty())
    } else {
        all
    };
    open.push("["@ + section + "]"@) + more
}

/// Lines with missing ones put at the end of their section, which is added where it
/// is missing too.
pub open spec fn with_missing(
    all: Seq<Seq<char>>,
    section: Seq<char>,
    missing: Seq<Seq<char>>,
) -> Seq<Seq<char>> {
    if missing.len() == 0 {
        all
    } else {
        let start = heading_from(all, section, 0);
        if start >= 0 {
            let end = end_of_section(all, start + 1);
            all.take(end) + missing + all.skip(end)
        } else {
            with_section(all, section, missing)
        }
    }
}

fn add_section(lines: &mut Vec<String>, section: &str, more: &[String])
    ensures
        text::texts(final(lines)@) == with_section(
            text::texts(old(lines)@),
            section@,
            text::texts(more@),
        ),
{
    let ghost before = lines@;
    if lines.len() > 0 && !lines[lines.len() - 1].as_str().is_empty() {
        let blank = String::new();
        proof {
            assert(text::texts(before).last() == before.last()@);
            assert(blank@ =~= Seq::<char>::empty());
        }
        lines.push(blank);
        proof {
            assert(text::texts(lines@) =~= text::texts(before).push(Seq::empty()));
        }
    } else {
        proof {
            if before.len() > 0 {
                assert(text::texts(before).last() == before.last()@);
            }
        }
    }
    let ghost open = lines@;
    lines.push(text::cat3("[", section, "]"));
    proof {
        assert(text::texts(lines@) =~= text::texts(open).push("["@ + section@ + "]"@));
    }
    document::append_texts(lines, more);
}

/// Puts missing lines at the end of their section.
pub fn insert_missing_scoring_section_lines(
    lines: &mut Vec<String>,
    section_name: &str,
    missing: &[String],
)
    ensures
        text::texts(final(lines)@) == with_missing(
            text::texts(old(lines)@),
            section_name@,
            text::texts(missing@),
        ),
{
    proof {
        assert(text::texts(missing@).len() == missing@.len());
    }
    if missing.len() == 0 {
        return;
    }
    let ghost before = lines@;
    let ghost all = text::texts(lines@);
    let mut start: usize = 0;
    let mut found = false;
    proof {
        assert(all.len() == lines@.len());
    }
    while start < lines.len() && !found
        invariant
            start <= lines.len(),
            lines@ == before,
            all == text::texts(before),
            all.len() == before.len(),
            !found ==> heading_from(all, section_name@, 0) == heading_from(
                all,
                section_name@,
                start as int,
            ),
            found ==> start > 0 && heading_from(all, section_name@, 0) == start - 1,
        decreases lines.len() - start,
    {
        proof {
            assert(all[start as int] == lines@[start as int]@);
        }
        match scoring_rules::scoring_section(lines[start].as_str()) {
            Some(section) => {
                if text::same_text(section.as_str(), section_name) {
                    found = true;
                }
            },
            None => {},
        }
        start += 1;
    }
    if !found {
        add_section(lines, section_name, missing);
        return;
    }
    let mut end: usize = start;
    let mut closed = false;
    while end < lines.len() && !closed
        invariant
            start <= end <= lines.len(),
            lines@ == before,
            all == text::texts(before),
            all.len() == before.len(),
            !closed ==> end_of_section(all, start as int) == end_of_section(all, end as int),
            closed ==> end_of_section(all, start as int) == end,
            closed ==> end < lines.len(),
        decreases lines.len() - end + (if closed {
            0int
        } else {
            1int
        }),
    {
        proof {
            assert(all[end as int] == lines@[end as int]@);
        }
        match scoring_rules::scoring_section(lines[end].as_str()) {
            Some(_) => {
                closed = true;
            },
            None => {
                end += 1;
            },
        }
    }
    let mut out: Vec<String> = Vec::new();
    let front = vstd::slice::slice_subrange(lines.as_slice(), 0, end);
    document::append_texts(&mut out, front);
    document::append_texts(&mut out, missing);
    let back = vstd::slice::slice_subrange(lines.as_slice(), end, lines.len());
    document::append_texts(&mut out, back);
    proof {
        assert(text::texts(front@) =~= all.take(end as int));
        assert(text::texts(back@) =~= all.skip(end as int));
        assert(text::texts(out@) =~= all.take(end as int) + text::texts(missing@) + all.skip(
            end as int,
        ));
    }
    *lines = out;
}

/// A text with the rules that it lacks put into their sections; an empty one
/// becomes the whole document.
pub open spec fn hydrated(content: Seq<char>, defaults: Seq<char>) -> Seq<char> {
    let rules = found_rules(defaults);
    let present = found_rules(content);
    let n = rules.len() as int;
    let heuristics = missing_lines(rules, present, "HeuristicScoring"@, n);
    let patterns = missing_lines(rules, present, "PatternScoring"@, n);
    if content.len() == 0 {
        defaults
    } else if heuristics.len() == 0 && patterns.len() == 0 {
        content
    } else {
        document::put_together(
            with_missing(
                with_missing(text::lines(content), "HeuristicScoring"@, heuristics),
                "PatternScoring"@,
                patterns,
            ),
            content,
        )
    }
}

/// Adds the rules that a text lacks.
pub fn hydrate_scoring_text(content: &str, defaults: &str) -> (r: String)
    ensures
        r@ == hydrated(content@, defaults@),
{
    if content.is_empty() {
        return defaults.to_owned();
    }
    let present = scoring_rule_lines(content);
    let rules = scoring_rule_lines(defaults);
    proof {
        assert(found_rules(defaults@).len() == rules@.len());
    }
    let heuristics = collect_missing(rules.as_slice(), present.as_slice(), "HeuristicScoring");
    let patterns = collect_missing(rules.as_slice(), present.as_slice(), "PatternScoring");
    proof {
        assert(text::texts(heuristics@).len() == heuristics@.len());
        assert(text::texts(patterns@).len() == patterns@.len());
    }
    if heuristics.len() == 0 && patterns.len() == 0 {
        return content.to_owned();
    }
    let mut lines = text::split_lines(content);
    insert_missing_scoring_section_lines(&mut lines, "HeuristicScoring", heuristics.as_slice());
    insert_missing_scoring_section_lines(&mut lines, "PatternScoring", patterns.as_slice());
    document::join_like(lines.as_slice(), content)
}

/// A text that lacks nothing stays as it is.
pub proof fn lemma_nothing_missing(content: Seq<char>, defaults: Seq<char>)
    requires
        content.len() > 0,
        forall|i: int|
            0 <= i < found_rules(defaults).len() ==> has_identity(
                found_rules(content),
                (#[trigger] found_rules(defaults)[i]).identity,
            ),
    ensures
        hydrated(content, defaults) == content,
{
    let rules = found_rules(defaults);
    let present = found_rules(content);
    lemma_no_missing_lines(rules, present, "HeuristicScoring"@, rules.len() as int);
    lemma_no_missing_lines(rules, present, "PatternScoring"@, rules.len() as int);
}

proof fn lemma_no_missing_lines(
    defaults: Seq<FoundRule>,
    present: Seq<FoundRule>,
    section: Seq<char>,
    n: int,
)
    requires
        0 <= n <= defaults.len(),
        forall|i: int|
            0 <= i < defaults.len() ==> has_identity(present, (#[trigger] defaults[i]).identity),
    ensures
        missing_lines(defaults, present, section, n).len() == 0,
    decreases n,
{
    if n > 0 {
        lemma_no_missing_lines(defaults, present, section, n - 1);
        assert(has_identity(present, defaults[n - 1].identity));
    }
}

// ---------------------------------------------------------------------------
// Exchanging rules
// ---------------------------------------------------------------------------

/// What is known while the rules of a text are exchanged: the lines so far, the
/// section, and which rules stand among the lines already.
pub struct MergeState {
    pub output: Seq<Seq<char>>,
    pub section: Seq<char>,
    pub heuristics_in: bool,
    pub patterns_in: bool,
}

/// The rules of the current section put in, if they are not yet.
pub open spec fn put_in(
    state: MergeState,
    heuristics: Seq<Seq<char>>,
    patterns: Seq<Seq<char>>,
) -> MergeState {
    if state.section == "HeuristicScoring"@ && !state.heuristics_in {
        MergeState { output: state.output + heuristics, heuristics_in: true, ..state }
    } else if state.section == "PatternScoring"@ && !state.patterns_in {
        MergeState { output: state.output + patterns, patterns_in: true, ..state }
    } else {
        state
    }
}

/// The state after the first `n` lines.
pub open spec fn merge_after(
    all: Seq<Seq<char>>,
    heuristics: Seq<Seq<char>>,
    patterns: Seq<Seq<char>>,
    n: int,
) -> MergeState
    decreases n,
{
    if n <= 0 {
        MergeState {
            output: Seq::empty(),
            section: Seq::empty(),
            heuristics_in: false,
            patterns_in: false,
        }
    } else {
        let before = merge_after(all, heuristics, patterns, n - 1);
        let line = all[n - 1];
        match scoring_rules::section_of(line) {
            Some(next) => {
                let filled = put_in(before, heuristics, patterns);
                MergeState { output: filled.output.push(line), section: next, ..filled }
            },
            None => if scoring_rules::rule_identity(before.section, line) is Some {
                put_in(before, heuristics, patterns)
            } else {
                MergeState { output: before.output.push(line), ..before }
            },
        }
    }
}

/// The lines of a text with its rules exchanged. Rules whose section is missing
/// come last, under a heading of their own.
pub open spec fn exchanged_rules(
    all: Seq<Seq<char>>,
    heuristics: Seq<Seq<char>>,
    patterns: Seq<Seq<char>>,
) -> Seq<Seq<char>> {
    let end = put_in(
        merge_after(all, heuristics, patterns, all.len() as int),
        heuristics,
        patterns,
    );
    let first = if end.heuristics_in {
        end.output
    } else {
        with_section(end.output, "HeuristicScoring"@, heuristics)
    };
    if end.patterns_in {
        first
    } else {
        with_section(first, "PatternScoring"@, patterns)
    }
}

struct Merging {
    output: Vec<String>,
    section: String,
    heuristics_in: bool,
    patterns_in: bool,
}

impl Merging {
    spec fn is(&self, state: MergeState) -> bool {
        &&& text::texts(self.output@) == state.output
        &&& self.section@ == state.section
        &&& self.heuristics_in == state.heuristics_in
        &&& self.patterns_in == state.patterns_in
    }

    fn fill(&mut self, heuristics: &[String], patterns: &[String])
        ensures
            forall|state: MergeState| #[trigger]
                old(self).is(state) ==> final(self).is(
                    put_in(state, text::texts(heuristics@), text::texts(patterns@)),
                ),
    {
        if text::same_text(self.section.as_str(), "HeuristicScoring") && !self.heuristics_in {
            document::append_texts(&mut self.output, heuristics);
            self.heuristics_in = true;
        } else if text::same_text(self.section.as_str(), "PatternScoring") && !self.patterns_in {
            document::append_texts(&mut self.output, patterns);
            self.patterns_in = true;
        }
    }

    fn keep(&mut self, line: &str)
        ensures
            text::texts(final(self).output@) == text::texts(old(self).output@).push(line@),
            final(self).section@ == old(self).section@,
            final(self).heuristics_in == old(self).heuristics_in,
            final(self).patterns_in == old(self).patterns_in,
    {
        let ghost before = self.output@;
        self.output.push(line.to_owned());
        proof {
            assert(text::texts(self.output@) =~= text::texts(before).push(line@));
        }
    }
}

/// A text with its rules exchanged for the given ones. They stand where the first
/// rule of their section was or, where it had none, at its end; all other lines
/// stay.
pub fn merge_scoring_rule_entries_text(existing: &str, entries: &[ScoringRuleEntry]) -> (r: String)
    ensures
        r@ == document::put_together(
            exchanged_rules(
                text::lines(existing@),
                section_lines(
                    entry_models(entries@),
                    ScoringRuleKind::Heuristic,
                    entries@.len() as int,
                ),
                section_lines(
                    entry_models(entries@),
                    ScoringRuleKind::Pattern,
                    entries@.len() as int,
                ),
            ),
            existing@,
        ),
{
    let heuristics = lines_of_section(entries, ScoringRuleKind::Heuristic);
    let patterns = lines_of_section(entries, ScoringRuleKind::Pattern);
    let ghost h = text::texts(heuristics@);
    let ghost p = text::texts(patterns@);
    let lines = text::split_lines(existing);
    let ghost all = text::lines(existing@);
    let mut merging = Merging {
        output: Vec::new(),
        section: String::new(),
        heuristics_in: false,
        patterns_in: false,
    };
    let mut i: usize = 0;
    proof {
        assert(all.len() == lines@.len());
        assert(text::texts(merging.output@) =~= Seq::<Seq<char>>::empty());
        assert(merging.section@ =~= Seq::<char>::empty());
    }
    while i < lines.len()
        invariant
            i <= lines.len(),
            all == text::texts(lines@),
            h == text::texts(heuristics@),
            p == text::texts(patterns@),
            merging.is(merge_after(all, h, p, i as int)),
        decreases lines.len() - i,
    {
        proof {
            assert(all[i as int] == lines@[i as int]@);
        }
        match scoring_rules::scoring_section(lines[i].as_str()) {
            Some(next) => {
                merging.fill(heuristics.as_slice(), patterns.as_slice());
                merging.keep(lines[i].as_str());
                merging.section = next;
            },
            None => {
                match scoring_rules::scoring_rule_identity(
                    merging.section.as_str(),
                    lines[i].as_str(),
                ) {
                    Some(_) => {
                        merging.fill(heuristics.as_slice(), patterns.as_slice());
                    },
                    None => {
                        merging.keep(lines[i].as_str());
                    },
                }
            },
        }
        i += 1;
    }
    merging.fill(heuristics.as_slice(), patterns.as_slice());
    if !merging.heuristics_in {
        add_section(&mut merging.output, "HeuristicScoring", heuristics.as_slice());
    }
    if !merging.patterns_in {
        add_section(&mut merging.output, "PatternScoring", patterns.as_slice());
    }
    document::join_like(merging.output.as_slice(), existing)
}


// ---------------------------------------------------------------------------
// Lines are read back
// ---------------------------------------------------------------------------

/// A rule that a line can hold as it is. Its value is a number, its key is not blank and
/// has no sign in it that a line is cut at, and the line is no comment and no heading.
pub open spec fn is_writable(entry: EntryModel) -> bool {
    let line = rule_line(entry);
    &&& scoring_rules::number_in(entry.value) is Some
    &&& text::trimmed(entry.key) == entry.key && entry.key.len() > 0
    &&& entry.key[0] != '#' && entry.key[0] != '\u{feff}'
    &&& scoring_rules::heading(line) is None
    &&& if entry.enabled {
        !entry.key.contains('=') && !text::has_infix(line, "<<<"@)
    } else {
        entry.key.last() != '<' && !text::has_infix(entry.key, "<<<"@)
    }
    &&& match entry.kind {
        ScoringRuleKind::Heuristic => {
            scoring_rules::heuristic_names().contains(entry.key) && entry.modifiers.len() == 0
        },
        ScoringRuleKind::Pattern => {
            &&& entry.modifiers.no_duplicates()
            &&& forall|i: int|
                0 <= i < entry.modifiers.len() ==> index_roots::is_keyword(
                    #[trigger] entry.modifiers[i],
                ) && scoring::keyword_shown(entry.modifiers[i]) == entry.modifiers[i]
        },
    }
}

/// The heading under which the rules of a kind stand.
pub open spec fn section_name(kind: ScoringRuleKind) -> Seq<char> {
    match kind {
        ScoringRuleKind::Heuristic => "HeuristicScoring"@,
        ScoringRuleKind::Pattern => "PatternScoring"@,
    }
}

/// The notation of a number has nothing in it but digits and signs.
proof fn lemma_number_chars(s: Seq<char>)
    requires
        scoring_rules::number_in(s) is Some,
    ensures
        s.len() > 0,
        forall|i: int|
            0 <= i < s.len() ==> text::is_digit(#[trigger] s[i]) || s[i] == '-' || s[i] == '+',
{
    assert forall|i: int| 0 <= i < s.len() implies text::is_digit(#[trigger] s[i]) || s[i] == '-'
        || s[i] == '+' by {
        if s[0] == '-' || s[0] == '+' {
            if i > 0 {
                assert(s.drop_first()[i - 1] == s[i]);
            }
        }
    }
}

/// What stands behind the value of a rule.
spec fn tail_of(entry: EntryModel) -> Seq<char> {
    if entry.kind == ScoringRuleKind::Pattern && entry.modifiers.len() > 0 {
        " | modifiers="@ + scoring::keywords_shown(entry.modifiers)
    } else {
        Seq::empty()
    }
}

/// The keywords that a rule asks for, as they are listed.
proof fn lemma_keywords_listed(entry: EntryModel)
    requires
        is_writable(entry),
        entry.modifiers.len() > 0,
    ensures
        scoring::keywords_shown(entry.modifiers) == text::join(entry.modifiers, ","@),
        !scoring::keywords_shown(entry.modifiers).contains('|'),
        scoring::keywords_shown(entry.modifiers).len() > 0,
        !text::white_space(scoring::keywords_shown(entry.modifiers).last()),
        index_roots::keywords_in(scoring::keywords_shown(entry.modifiers)) == entry.modifiers,
{
    let shown = Seq::new(
        entry.modifiers.len(),
        |i: int| scoring::keyword_shown(entry.modifiers[i]),
    );
    assert(shown =~= entry.modifiers) by {
        assert forall|i: int| 0 <= i < entry.modifiers.len() implies shown[i]
            == entry.modifiers[i] by {
            assert(index_roots::is_keyword(entry.modifiers[i]));
        }
    }
    assert forall|i: int| 0 <= i < entry.modifiers.len() implies index_roots::is_keyword(
        #[trigger] entry.modifiers[i],
    ) by {}
    index_roots::lemma_keywords_round_trip(entry.modifiers);
    index_roots::lemma_keywords_end(entry.modifiers);
    lemma_list_without_bars(entry.modifiers);
}

proof fn lemma_list_without_bars(all: Seq<Seq<char>>)
    requires
        forall|i: int| 0 <= i < all.len() ==> index_roots::is_keyword(#[trigger] all[i]),
    ensures
        !text::join(all, ","@).contains('|'),
    decreases all.len(),
{
    reveal_strlit(",");
    let list = text::join(all, ","@);
    if all.len() > 0 {
        let last = all[all.len() - 1];
        let before = all.drop_last();
        assert(index_roots::is_keyword(last));
        assert forall|i: int| 0 <= i < before.len() implies index_roots::is_keyword(
            #[trigger] before[i],
        ) by {
            assert(before[i] == all[i]);
        }
        lemma_list_without_bars(before);
        let front = text::join(before, ","@);
        assert forall|i: int| 0 <= i < list.len() implies list[i] != '|' by {
            if all.len() == 1 {
                assert(!index_roots::parts_keywords(last[i]));
            } else if i < front.len() {
                assert(list[i] == front[i]);
                assert(front.contains(front[i]));
            } else if i > front.len() {
                assert(list[i] == last[i - front.len() - 1]);
                assert(!index_roots::parts_keywords(last[i - front.len() - 1]));
            }
        }
    }
}

/// The value of a rule and its keywords are read back.
proof fn lemma_value_is_read(entry: EntryModel)
    requires
        is_writable(entry),
    ensures
        ({
            let all = entry.value + tail_of(entry);
            &&& text::trimmed(all) == all
            &&& scoring_rules::score_text(all) == entry.value
            &&& entry.kind == ScoringRuleKind::Pattern ==> scoring_rules::modifiers_in(all)
                == entry.modifiers
        }),
{
    let value = entry.value;
    let all = value + tail_of(entry);
    let e = Seq::<char>::empty();
    lemma_number_chars(value);
    assert(text::is_digit(value[0]) || value[0] == '-' || value[0] == '+');
    assert(text::is_digit(value[value.len() - 1]) || value[value.len() - 1] == '-'
        || value[value.len() - 1] == '+');
    assert(!value.contains('|')) by {
        assert forall|i: int| 0 <= i < value.len() implies value[i] != '|' by {
            assert(text::is_digit(value[i]) || value[i] == '-' || value[i] == '+');
        }
    }
    text::lemma_trimmed_stays(value);
    assert(all[0] == value[0]);
    if entry.kind == ScoringRuleKind::Pattern && entry.modifiers.len() > 0 {
        lemma_keywords_listed(entry);
        let list = scoring::keywords_shown(entry.modifiers);
        reveal_strlit(" | modifiers=");
        reveal_strlit("modifiers");
        reveal_strlit("=");
        let setting = "modifiers"@ + "="@ + list;
        let padded = seq![' '] + setting;
        assert(" | modifiers="@ =~= seq![' ', '|', ' '] + "modifiers"@ + "="@);
        assert(all =~= value.push(' ').push('|') + padded);
        assert(all.last() == list.last());
        text::lemma_trimmed_stays(all);
        let front = value.push(' ');
        text::lemma_pieces_add(e, front, '|');
        assert(e + front =~= front);
        assert(text::pieces(e, '|') =~= seq![e]);
        assert(text::pieces(front, '|') =~= seq![front]);
        let longer = front.push('|');
        assert(longer.drop_last() =~= front);
        assert(text::pieces(longer, '|') =~= seq![front, e]);
        assert(!padded.contains('|')) by {
            assert forall|i: int| 0 <= i < padded.len() implies padded[i] != '|' by {
                if i >= 11 {
                    assert(padded[i] == list[i - 11]);
                    assert(list.contains(list[i - 11]));
                }
            }
        }
        text::lemma_pieces_add(longer, padded, '|');
        assert(e + padded =~= padded);
        let pieces = text::pieces(all, '|');
        assert(pieces =~= seq![front, padded]);
        text::lemma_trimmed_padded(value);
        assert(setting[0] == "modifiers"@[0]);
        assert(setting.last() == list.last());
        text::lemma_trimmed_padded(setting);
        text::lemma_trimmed_stays("modifiers"@);
        index_roots::lemma_setting("modifiers"@, list);
        assert(pieces[1] == padded);
        assert(scoring_rules::modifiers_among(pieces, 2) == entry.modifiers);
    } else {
        assert(all =~= value);
        text::lemma_pieces_add(e, value, '|');
        assert(e + value =~= value);
        assert(text::pieces(e, '|') =~= seq![e]);
        assert(text::pieces(value, '|') =~= seq![value]);
        assert(scoring_rules::modifiers_among(text::pieces(value, '|'), 1) == Seq::<
            Seq<char>,
        >::empty());
        assert(entry.modifiers =~= Seq::<Seq<char>>::empty());
    }
}

/// The line of a rule is cut where its key ends.
proof fn lemma_line_is_cut(entry: EntryModel)
    requires
        is_writable(entry),
        text::trimmed(entry.value) == entry.value,
    ensures
        scoring_rules::rule_cut(rule_line(entry)) == Some(
            (entry.enabled, entry.key, entry.value + tail_of(entry)),
        ),
{
    reveal_strlit("<<<");
    reveal_strlit("=");
    let line = rule_line(entry);
    let key = entry.key;
    let n = key.len() as int;
    let rest = entry.value + tail_of(entry);
    if entry.enabled {
        assert(line =~= key + "="@ + rest);
        assert forall|k: int| 0 <= k implies !text::occurs_at(line, "<<<"@, k) by {}
        document::lemma_place_none(line, "<<<"@, 0);
        assert(line.subrange(n, n + 1) =~= "="@);
        assert forall|k: int| 0 <= k < n implies !text::occurs_at(line, "="@, k) by {
            if text::occurs_at(line, "="@, k) {
                assert(line.subrange(k, k + 1)[0] == key[k]);
                assert(key.contains(key[k]));
            }
        }
        document::lemma_place_is(line, "="@, 0, n);
        assert(line.take(n) =~= key);
        assert(line.skip(n + 1) =~= rest);
    } else {
        assert(line =~= key + "<<<"@ + rest);
        assert(line.subrange(n, n + 3) =~= "<<<"@);
        assert forall|k: int| 0 <= k < n implies !text::occurs_at(line, "<<<"@, k) by {
            if text::occurs_at(line, "<<<"@, k) {
                let found = line.subrange(k, k + 3);
                assert(found[0] == line[k] && found[1] == line[k + 1] && found[2] == line[k + 2]);
                if k + 3 <= n {
                    assert(key.subrange(k, k + 3) =~= found);
                    assert(text::occurs_at(key, "<<<"@, k));
                } else {
                    assert(line[n - 1] == key.last());
                    assert(k == n - 1 || k + 1 == n - 1);
                }
            }
        }
        document::lemma_place_is(line, "<<<"@, 0, n);
        assert(line.take(n) =~= key);
        assert(line.skip(n + 3) =~= rest);
    }
}

/// A rule is read back from its line, under the heading of its kind.
pub proof fn lemma_rule_line_round_trip(state: ListState, entry: EntryModel)
    requires
        is_writable(entry),
        state.section == section_name(entry.kind),
    ensures
        list_step(state, rule_line(entry)) == (ListState {
            entries: state.entries.push(entry),
            ..state
        }),
{
    let line = rule_line(entry);
    let key = entry.key;
    let rest = entry.value + tail_of(entry);
    lemma_number_chars(entry.value);
    assert(text::is_digit(entry.value[0]) || entry.value[0] == '-' || entry.value[0] == '+');
    let m = entry.value.len() - 1;
    assert(text::is_digit(entry.value[m]) || entry.value[m] == '-' || entry.value[m] == '+');
    text::lemma_trimmed_stays(entry.value);
    lemma_value_is_read(entry);
    lemma_line_is_cut(entry);
    text::lemma_trimmed_ends(key);
    text::lemma_trimmed_ends(rest);
    assert(line[0] == key[0]);
    assert(line.last() == rest.last()) by {
        assert(line =~= key + (if entry.enabled {
            "="@
        } else {
            "<<<"@
        }) + rest);
    }
    text::lemma_trimmed_stays(line);
    assert(!seq!['\u{feff}'].contains(line[0]));
    assert(scoring_rules::bare_line(line) == line);
    reveal_strlit("HeuristicScoring");
    reveal_strlit("PatternScoring");
    assert("HeuristicScoring"@.len() != "PatternScoring"@.len());
    if entry.kind == ScoringRuleKind::Heuristic {
        assert(entry.modifiers =~= Seq::<Seq<char>>::empty());
    }
}



/// The rules of one kind among the first `n`.
pub open spec fn of_kind(entries: Seq<EntryModel>, kind: ScoringRuleKind, n: int) -> Seq<EntryModel>
    decreases n,
{
    if n <= 0 {
        Seq::empty()
    } else if entries[n - 1].kind == kind {
        of_kind(entries, kind, n - 1).push(entries[n - 1])
    } else {
        of_kind(entries, kind, n - 1)
    }
}

/// The lines of a section are read as its rules.
proof fn lemma_section_is_read(
    all: Seq<Seq<char>>,
    from: int,
    entries: Seq<EntryModel>,
    kind: ScoringRuleKind,
    n: int,
)
    requires
        0 <= from,
        0 <= n <= entries.len(),
        forall|i: int| 0 <= i < entries.len() ==> is_writable(#[trigger] entries[i]),
        list_after(all, from).section == section_name(kind),
        from + section_lines(entries, kind, n).len() <= all.len(),
        all.subrange(from, from + section_lines(entries, kind, n).len()) == section_lines(
            entries,
            kind,
            n,
        ),
    ensures
        list_after(all, from + section_lines(entries, kind, n).len()) == (ListState {
            section: section_name(kind),
            entries: list_after(all, from).entries + of_kind(entries, kind, n),
        }),
    decreases n,
{
    let here = section_lines(entries, kind, n);
    let start = list_after(all, from);
    if n <= 0 {
        assert(start.entries + of_kind(entries, kind, n) =~= start.entries);
    } else if entries[n - 1].kind == kind {
        let before = section_lines(entries, kind, n - 1);
        assert(all.subrange(from, from + before.len()) =~= before) by {
            assert forall|i: int| 0 <= i < before.len() implies all[from + i] == before[i] by {
                assert(all.subrange(from, from + here.len())[i] == here[i]);
            }
        }
        lemma_section_is_read(all, from, entries, kind, n - 1);
        let at = from + before.len();
        assert(all.subrange(from, from + here.len())[before.len() as int] == all[at]);
        assert(all[at] == rule_line(entries[n - 1]));
        assert(is_writable(entries[n - 1]));
        lemma_rule_line_round_trip(list_after(all, at), entries[n - 1]);
        assert(list_after(all, at + 1) == list_step(list_after(all, at), all[at]));
        assert(start.entries + of_kind(entries, kind, n) =~= (start.entries + of_kind(
            entries,
            kind,
            n - 1,
        )).push(entries[n - 1]));
    } else {
        lemma_section_is_read(all, from, entries, kind, n - 1);
    }
}

/// The lines of a document that are no rules say which section begins.
proof fn lemma_document_frame(state: ListState)
    ensures
        list_step(state, "# Flash Launch scoring rules."@) == state,
        list_step(state, "# Use <<< instead of = to disable a rule."@) == state,
        list_step(state, ""@) == state,
        list_step(state, "[HeuristicScoring]"@) == (ListState {
            section: "HeuristicScoring"@,
            ..state
        }),
        list_step(state, "[PatternScoring]"@) == (ListState { section: "PatternScoring"@, ..state }),
{
    reveal_strlit("# Flash Launch scoring rules.");
    reveal_strlit("# Use <<< instead of = to disable a rule.");
    reveal_strlit("");
    reveal_strlit("[HeuristicScoring]");
    reveal_strlit("[PatternScoring]");
    reveal_strlit("HeuristicScoring");
    reveal_strlit("PatternScoring");
    let mark = seq!['\u{feff}'];
    text::lemma_trimmed_stays("# Flash Launch scoring rules."@);
    text::lemma_trimmed_stays("# Use <<< instead of = to disable a rule."@);
    text::lemma_trimmed_stays(""@);
    text::lemma_trimmed_stays("[HeuristicScoring]"@);
    text::lemma_trimmed_stays("[PatternScoring]"@);
    assert(!mark.contains('#') && !mark.contains('['));
    assert(scoring_rules::bare_line("# Flash Launch scoring rules."@)
        == "# Flash Launch scoring rules."@);
    assert(scoring_rules::bare_line("# Use <<< instead of = to disable a rule."@)
        == "# Use <<< instead of = to disable a rule."@);
    assert(scoring_rules::bare_line(""@) == ""@);
    assert(scoring_rules::bare_line("[HeuristicScoring]"@) == "[HeuristicScoring]"@);
    assert(scoring_rules::bare_line("[PatternScoring]"@) == "[PatternScoring]"@);
    assert("[HeuristicScoring]"@ =~= seq!['['] + "HeuristicScoring"@ + seq![']']);
    assert("[PatternScoring]"@ =~= seq!['['] + "PatternScoring"@ + seq![']']);
    lemma_brackets_go("[HeuristicScoring]"@, "HeuristicScoring"@);
    lemma_brackets_go("[PatternScoring]"@, "PatternScoring"@);
}

proof fn lemma_brackets_go(line: Seq<char>, name: Seq<char>)
    requires
        line == seq!['['] + name + seq![']'],
        name.len() > 0,
        name[0] != '[' && name[0] != ']',
        name.last() != '[' && name.last() != ']',
    ensures
        document::stripped(line, seq!['[', ']']) == name,
{
    let set = seq!['[', ']'];
    assert(set[0] == '[' && set[1] == ']');
    assert(set.contains('[') && set.contains(']'));
    let one = line.drop_first();
    assert(one[0] == name[0]);
    assert(!set.contains(name[0]));
    assert(document::stripped_start(one, set) == one);
    assert(document::stripped_start(line, set) == one);
    assert(one.last() == ']');
    assert(one.drop_last() =~= name);
    assert(!set.contains(name.last()));
    assert(document::stripped_end(name, set) == name);
}

/// No line of a section has a line break in it.
proof fn lemma_section_lines_are_lines(entries: Seq<EntryModel>, kind: ScoringRuleKind, n: int)
    requires
        0 <= n <= entries.len(),
        forall|i: int|
            0 <= i < entries.len() ==> !(rule_line(#[trigger] entries[i])).contains('\n'),
    ensures
        forall|i: int|
            0 <= i < section_lines(entries, kind, n).len() ==> !(#[trigger] section_lines(
                entries,
                kind,
                n,
            )[i]).contains('\n'),
    decreases n,
{
    if n > 0 {
        lemma_section_lines_are_lines(entries, kind, n - 1);
        let before = section_lines(entries, kind, n - 1);
        let all = section_lines(entries, kind, n);
        assert(!rule_line(entries[n - 1]).contains('\n'));
        assert forall|i: int| 0 <= i < all.len() implies !(#[trigger] all[i]).contains('\n') by {
            if i < before.len() {
                assert(all[i] == before[i]);
            }
        }
    }
}

/// A document of rules is read back: the rules of the first section, then those of the
/// second, each in their order.
pub proof fn lemma_document_round_trip(entries: Seq<EntryModel>)
    requires
        forall|i: int| 0 <= i < entries.len() ==> is_writable(#[trigger] entries[i]),
        forall|i: int|
            0 <= i < entries.len() ==> !(rule_line(#[trigger] entries[i])).contains('\n'),
    ensures
        listed(text::join(document_lines(entries), "\r\n"@) + "\r\n"@) == of_kind(
            entries,
            ScoringRuleKind::Heuristic,
            entries.len() as int,
        ) + of_kind(entries, ScoringRuleKind::Pattern, entries.len() as int),
{
    let n = entries.len() as int;
    let all = document_lines(entries);
    let first = section_lines(entries, ScoringRuleKind::Heuristic, n);
    let second = section_lines(entries, ScoringRuleKind::Pattern, n);
    let a = 4int;
    let b = a + first.len();
    let c = b + 2;
    lemma_section_lines_are_lines(entries, ScoringRuleKind::Heuristic, n);
    lemma_section_lines_are_lines(entries, ScoringRuleKind::Pattern, n);
    assert forall|i: int| 0 <= i < all.len() implies !(#[trigger] all[i]).contains('\n') by {
        reveal_strlit("# Flash Launch scoring rules.");
        reveal_strlit("# Use <<< instead of = to disable a rule.");
        reveal_strlit("");
        reveal_strlit("[HeuristicScoring]");
        reveal_strlit("[PatternScoring]");
        if a <= i < b {
            assert(all[i] == first[i - a]);
        } else if i >= c {
            assert(all[i] == second[i - c]);
        }
    }
    text::lemma_returned_lines_round_trip(all);
    let s0 = list_after(all, 0);
    lemma_document_frame(s0);
    assert(list_after(all, 1) == s0);
    assert(list_after(all, 2) == s0);
    assert(list_after(all, 3) == s0);
    assert(all[3] == "[HeuristicScoring]"@);
    assert(list_after(all, 4) == list_step(list_after(all, 3), all[3]));
    assert(all.subrange(a, b) =~= first);
    lemma_section_is_read(all, a, entries, ScoringRuleKind::Heuristic, n);
    let s1 = list_after(all, b);
    lemma_document_frame(s1);
    assert(all[b] == ""@);
    assert(all[b + 1] == "[PatternScoring]"@);
    assert(list_after(all, b + 1) == list_step(s1, all[b]));
    assert(list_after(all, c) == list_step(list_after(all, b + 1), all[b + 1]));
    assert(all.subrange(c, c + second.len()) =~= second);
    lemma_section_is_read(all, c, entries, ScoringRuleKind::Pattern, n);
    assert(c + second.len() == all.len());
    assert(Seq::<EntryModel>::empty() + of_kind(entries, ScoringRuleKind::Heuristic, n)
        =~= of_kind(entries, ScoringRuleKind::Heuristic, n));
}

// ---------------------------------------------------------------------------
// What stays in a document
// ---------------------------------------------------------------------------

/// A rule is found by its kind, its key and its keywords: the first such.
pub proof fn lemma_first_same_rule(
    rule: EntryModel,
    rules: Seq<EntryModel>,
    from: int,
    p: int,
)
    requires
        0 <= from <= p <= rules.len(),
        forall|i: int|
            from <= i < p ==> (#[trigger] rules[i]).kind != rule.kind || rules[i].modifiers
                != rule.modifiers || !text::same_ignoring_ascii_case(rules[i].key, rule.key),
        p < rules.len() ==> rules[p].kind == rule.kind && rules[p].modifiers == rule.modifiers
            && text::same_ignoring_ascii_case(rules[p].key, rule.key),
    ensures
        p < rules.len() ==> same_rule_from(rule, rules, from) == Some(rules[p]),
        p == rules.len() ==> same_rule_from(rule, rules, from) is None,
    decreases p - from,
{
    if from < p {
        lemma_first_same_rule(rule, rules, from + 1, p);
    }
}

/// The lines that are missing in a section are those of the rules of that section that the
/// document does not have, in their order.
pub proof fn lemma_which_lines_are_missing(
    defaults: Seq<FoundRule>,
    present: Seq<FoundRule>,
    section: Seq<char>,
    n: int,
)
    requires
        0 <= n <= defaults.len(),
    ensures
        ({
            let wanted = |p: int|
                defaults[p].section == section && forall|i: int|
                    0 <= i < present.len() ==> (#[trigger] present[i]).identity
                        != defaults[p].identity;
            exists|from: Seq<int>| #[trigger]
                places::picks_all(from, n, wanted) && missing_lines(defaults, present, section, n)
                    == Seq::new(from.len(), |i: int| defaults[from[i]].line)
        }),
    decreases n,
{
    let wanted = |p: int|
        defaults[p].section == section && forall|i: int|
            0 <= i < present.len() ==> (#[trigger] present[i]).identity != defaults[p].identity;
    if n > 0 {
        lemma_which_lines_are_missing(defaults, present, section, n - 1);
        let from = choose|from: Seq<int>| #[trigger]
            places::picks_all(from, n - 1, wanted) && missing_lines(
                defaults,
                present,
                section,
                n - 1,
            ) == Seq::new(from.len(), |i: int| defaults[from[i]].line);
        places::lemma_pick_one_more(from, n - 1, wanted);
        assert(wanted(n - 1) == (defaults[n - 1].section == section && !has_identity(
            present,
            defaults[n - 1].identity,
        )));
        let next = if wanted(n - 1) {
            from.push(n - 1)
        } else {
            from
        };
        assert(places::picks_all(next, n, wanted));
        assert(missing_lines(defaults, present, section, n) =~= Seq::new(
            next.len(),
            |i: int| defaults[next[i]].line,
        ));
    } else {
        let from = Seq::<int>::empty();
        assert(places::picks_all(from, n, wanted));
        assert(missing_lines(defaults, present, section, n) =~= Seq::new(
            from.len(),
            |i: int| defaults[from[i]].line,
        ));
    }
}

proof fn lemma_heading_is_first(all: Seq<Seq<char>>, section: Seq<char>, from: int)
    requires
        0 <= from <= all.len(),
    ensures
        ({
            let p = heading_from(all, section, from);
            if p < 0 {
                forall|i: int|
                    from <= i < all.len() ==> scoring_rules::section_of(#[trigger] all[i]) != Some(
                        section,
                    )
            } else {
                from <= p < all.len() && scoring_rules::section_of(all[p]) == Some(section)
            }
        }),
    decreases all.len() - from,
{
    if from < all.len() && scoring_rules::section_of(all[from]) != Some(section) {
        lemma_heading_is_first(all, section, from + 1);
    }
}

proof fn lemma_section_ends_at_the_next(all: Seq<Seq<char>>, from: int)
    requires
        0 <= from <= all.len(),
    ensures
        from <= end_of_section(all, from) <= all.len(),
        forall|i: int|
            from <= i < end_of_section(all, from) ==> scoring_rules::section_of(#[trigger] all[i])
                is None,
    decreases all.len() - from,
{
    if from < all.len() && scoring_rules::section_of(all[from]) is None {
        lemma_section_ends_at_the_next(all, from + 1);
    }
}

/// Lines that are missing are put in together, under the heading of their section and before
/// the next; all other lines stay as they were. Where the section is not there, it is added at
/// the end.
pub proof fn lemma_missing_lines_are_put_in(
    all: Seq<Seq<char>>,
    section: Seq<char>,
    missing: Seq<Seq<char>>,
)
    ensures
        missing.len() == 0 ==> with_missing(all, section, missing) == all,
        missing.len() > 0 && (exists|h: int|
            0 <= h < all.len() && scoring_rules::section_of(#[trigger] all[h]) == Some(section))
            ==> exists|h: int, end: int|
            0 <= h < end <= all.len() && scoring_rules::section_of(#[trigger] all[h]) == Some(section)
                && #[trigger] all.take(end) + missing + all.skip(end) == with_missing(
                all,
                section,
                missing,
            ) && forall|i: int|
                h < i < end ==> scoring_rules::section_of(#[trigger] all[i]) is None,
        missing.len() > 0 && !(exists|h: int|
            0 <= h < all.len() && scoring_rules::section_of(#[trigger] all[h]) == Some(section))
            ==> ({
            let after = with_missing(all, section, missing);
            &&& after.len() >= all.len() + 1 + missing.len()
            &&& after.take(all.len() as int) == all
            &&& after.skip(after.len() - missing.len()) == missing
            &&& after[after.len() - missing.len() - 1] == "["@ + section + "]"@
        }),
{
    if missing.len() > 0 {
        lemma_heading_is_first(all, section, 0);
        let h = heading_from(all, section, 0);
        if h >= 0 {
            lemma_section_ends_at_the_next(all, h + 1);
            let end = end_of_section(all, h + 1);
            assert(scoring_rules::section_of(all[h]) == Some(section));
            assert(all.take(end) + missing + all.skip(end) == with_missing(all, section, missing));
        } else {
            let after = with_missing(all, section, missing);
            assert(after.take(all.len() as int) =~= all);
            assert(after.skip(after.len() - missing.len()) =~= missing);
        }
    }
}

/// The lines of a kind are those of its rules, in their order.
pub proof fn lemma_rules_of_a_kind(entries: Seq<EntryModel>, kind: ScoringRuleKind, n: int)
    requires
        0 <= n <= entries.len(),
    ensures
        of_kind(entries, kind, n) == entries.take(n).filter(|e: EntryModel| e.kind == kind),
        section_lines(entries, kind, n) == Seq::new(
            of_kind(entries, kind, n).len(),
            |i: int| rule_line(of_kind(entries, kind, n)[i]),
        ),
    decreases n,
{
    reveal(Seq::filter);
    if n > 0 {
        lemma_rules_of_a_kind(entries, kind, n - 1);
        assert(entries.take(n).drop_last() =~= entries.take(n - 1));
        assert(entries.take(n).last() == entries[n - 1]);
        assert(section_lines(entries, kind, n) =~= Seq::new(
            of_kind(entries, kind, n).len(),
            |i: int| rule_line(of_kind(entries, kind, n)[i]),
        ));
    } else {
        assert(entries.take(0) =~= Seq::<EntryModel>::empty());
        assert(section_lines(entries, kind, n) =~= Seq::new(
            of_kind(entries, kind, n).len(),
            |i: int| rule_line(of_kind(entries, kind, n)[i]),
        ));
    }
}

/// The sections that rules are exchanged in are those that they are found in.
proof fn lemma_same_sections(
    all: Seq<Seq<char>>,
    heuristics: Seq<Seq<char>>,
    patterns: Seq<Seq<char>>,
    n: int,
)
    requires
        0 <= n <= all.len(),
    ensures
        merge_after(all, heuristics, patterns, n).section == found_after(all, n).section,
    decreases n,
{
    if n > 0 {
        lemma_same_sections(all, heuristics, patterns, n - 1);
    }
}

/// Lines that are no rules stay when rules are exchanged, in their order, and each once: with
/// nothing put in, they are all that is left.
pub proof fn lemma_other_lines_stay(all: Seq<Seq<char>>, n: int)
    requires
        0 <= n <= all.len(),
    ensures
        ({
            let wanted = |p: int|
                scoring_rules::section_of(all[p]) is Some || scoring_rules::rule_identity(
                    found_after(all, p).section,
                    all[p],
                ) is None;
            exists|from: Seq<int>| #[trigger]
                places::picks_all(from, n, wanted) && merge_after(
                    all,
                    Seq::empty(),
                    Seq::empty(),
                    n,
                ).output == Seq::new(from.len(), |i: int| all[from[i]])
        }),
    decreases n,
{
    let wanted = |p: int|
        scoring_rules::section_of(all[p]) is Some || scoring_rules::rule_identity(
            found_after(all, p).section,
            all[p],
        ) is None;
    let none = Seq::<Seq<char>>::empty();
    if n > 0 {
        lemma_other_lines_stay(all, n - 1);
        lemma_same_sections(all, none, none, n - 1);
        let from = choose|from: Seq<int>| #[trigger]
            places::picks_all(from, n - 1, wanted) && merge_after(all, none, none, n - 1).output
                == Seq::new(from.len(), |i: int| all[from[i]]);
        places::lemma_pick_one_more(from, n - 1, wanted);
        let next = if wanted(n - 1) {
            from.push(n - 1)
        } else {
            from
        };
        let before = merge_after(all, none, none, n - 1).output;
        assert(before + none =~= before);
        assert(places::picks_all(next, n, wanted));
        assert(merge_after(all, none, none, n).output =~= Seq::new(
            next.len(),
            |i: int| all[next[i]],
        ));
    } else {
        let from = Seq::<int>::empty();
        assert(places::picks_all(from, n, wanted));
        assert(merge_after(all, none, none, n).output =~= Seq::new(
            from.len(),
            |i: int| all[from[i]],
        ));
    }
}

/// The rules that are put in stand together in what comes out, once each: the lines grow by
/// their number and by nothing else.
pub proof fn lemma_rules_are_put_in_once(
    all: Seq<Seq<char>>,
    heuristics: Seq<Seq<char>>,
    patterns: Seq<Seq<char>>,
    n: int,
)
    requires
        0 <= n <= all.len(),
    ensures
        ({
            let with = merge_after(all, heuristics, patterns, n);
            let without = merge_after(all, Seq::empty(), Seq::empty(), n);
            with.output.len() == without.output.len() + (if with.heuristics_in {
                heuristics.len() as int
            } else {
                0
            }) + (if with.patterns_in {
                patterns.len() as int
            } else {
                0
            }) && with.section == without.section && with.heuristics_in == without.heuristics_in
                && with.patterns_in == without.patterns_in
        }),
    decreases n,
{
    if n > 0 {
        lemma_rules_are_put_in_once(all, heuristics, patterns, n - 1);
    }
}

} // verus!
