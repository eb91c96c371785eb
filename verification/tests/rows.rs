use flash_launch::aliases::{
    alias_display_text, alias_name_from_combo_text, path_aliases, Environment,
};
use flash_launch::breakdown::unix_seconds_from_system_time;
use flash_launch::bytes::{read_u8, ReadError};
use flash_launch::collect::{
    collect_results_with_config, push_item_with_config, HistoryEntry, HistoryTable, PluginOffer,
};
use flash_launch::explanation::special_score_explanation;
use flash_launch::index_roots::default_index_root_for;
use flash_launch::keys::{
    first_visible_result_index, focuses_search, is_dealt_with, KeyAction,
};
use flash_launch::keyset::KeySet;
use flash_launch::presentation::score_explanation_text;
use flash_launch::query::parse_search_query;
use flash_launch::query_rules::{
    delete_query_launch_rules_by_indices, query_launch_rule_actual_indices_for_visible_selection,
    query_launch_rule_selection_count_text, query_launch_rule_visible_indices,
    remove_query_launch_rule, QueryLaunchRule,
};
use flash_launch::recents::{recent_item_key, recent_lookup};
use flash_launch::results::{normalize_bounded_search_results, LaunchTarget, SearchResult};
use flash_launch::scoring::is_allowed_by_pattern_scoring;
use flash_launch::scoring_rules::parse_bool_setting;
use flash_launch::scoring_text::{
    default_scoring_text, parse_scoring_rule_entries, scoring_rule_entries_to_text,
};
use flash_launch::settings_model::{column_defs_for_page, ColumnText, SettingsPage};
use flash_launch::types::{IndexRoot, LaunchItem, ResultRankingKind, ScoringConfig, SearchQuerySpec};
use flash_launch::wording::Wording;

fn environment() -> Environment {
    Environment {
        variables: vec![("USERPROFILE".to_string(), r"C:\Users\An".to_string())],
        app_dir: r"C:\App".to_string(),
    }
}

fn query(raw: &str) -> SearchQuerySpec {
    parse_search_query(raw, 0, &environment(), false, false).effective_for_scoring()
}

fn item(name: &str) -> LaunchItem {
    let path = format!(r"C:\Tools\{name}");
    LaunchItem::new(name, r"C:\Tools", &path, false, 0, None)
}

fn titles(rows: &[SearchResult]) -> Vec<&str> {
    rows.iter().map(|row| row.title.as_str()).collect()
}

#[test]
fn what_fits_is_collected_in_order() {
    let items = vec![item("tool.txt"), item("other.txt"), item("tool.exe")];
    let recent = vec![None, None, None];
    let none = HistoryTable { entries: Vec::new() };
    let scoring = ScoringConfig::default();
    let rows =
        collect_results_with_config(
            &None,
            &items,
            &recent,
            &none,
            &query("tool"),
            &scoring,
            10,
            &Wording::source(),
        );
    assert_eq!(titles(&rows), vec!["tool.exe", "tool.txt"]);
    let rows =
        collect_results_with_config(
            &None,
            &items,
            &recent,
            &none,
            &query("tool"),
            &scoring,
            1,
            &Wording::source(),
        );
    assert_eq!(titles(&rows), vec!["tool.exe"]);
    let noted = HistoryTable {
        entries: vec![HistoryEntry {
            key: recent_item_key(r"C:\Tools\tool.txt"),
            score: 900,
            raw: Some("900".to_string()),
        }],
    };
    let rows =
        collect_results_with_config(
            &None,
            &items,
            &recent,
            &noted,
            &query("tool"),
            &scoring,
            10,
            &Wording::source(),
        );
    assert_eq!(titles(&rows), vec!["tool.txt", "tool.exe"]);
}

#[test]
fn plugins_answer_alone() {
    let offers = vec![PluginOffer {
        title: "4".to_string(),
        subtitle: "2+2".to_string(),
        action: "copy".to_string(),
        score: 7,
    }];
    let rows = collect_results_with_config(
        &Some(offers),
        &[item("4.txt")],
        &[None],
        &HistoryTable { entries: Vec::new() },
        &query("4"),
        &ScoringConfig::default(),
        10,
        &Wording::source(),
    );
    assert_eq!(titles(&rows), vec!["4"]);
    assert_eq!(rows[0].ranking_kind, ResultRankingKind::Plugin);
    assert_eq!(rows[0].score, 7);
}

#[test]
fn items_are_added_once() {
    let root = IndexRoot {
        raw: r"C:\Tools".to_string(),
        path: Some(r"C:\Tools".to_string()),
        enabled: true,
        score: 9,
        max_depth: 1,
        label: String::new(),
        keywords: Vec::new(),
    };
    let mut seen = KeySet::new();
    let mut items = Vec::new();
    for path in [r"C:\Tools\A.exe", r"c:\tools\a.EXE", r"C:\Tools\B.exe"] {
        push_item_with_config(path, false, &root, Some(5), r"C:\Work", &mut seen, &mut items);
    }
    let names: Vec<&str> = items.iter().map(|item| item.title.as_str()).collect();
    assert_eq!(names, vec!["A.exe", "B.exe"]);
    assert_eq!(items[0].index_score, 9);
    assert_eq!(items[0].modified_at_unix_seconds, Some(5));
}

fn rule(query: &str, target: &str) -> QueryLaunchRule {
    QueryLaunchRule {
        query: query.to_string(),
        target: target.to_string(),
    }
}

#[test]
fn rules_are_filtered_and_deleted() {
    let mut rules = vec![rule("calc", "Calculator"), rule("note", "Pad"), rule("c", "Calc 2")];
    let visible = query_launch_rule_visible_indices(&rules, "CALC");
    assert_eq!(visible, vec![0, 2]);
    assert_eq!(query_launch_rule_visible_indices(&rules, " "), vec![0, 1, 2]);
    let chosen = query_launch_rule_actual_indices_for_visible_selection(&visible, &[1, 9]);
    assert_eq!(chosen, vec![2]);
    assert_eq!(delete_query_launch_rules_by_indices(&mut rules, &[2, 2, 7]), 1);
    assert_eq!(rules, vec![rule("calc", "Calculator"), rule("note", "Pad")]);
    assert!(!remove_query_launch_rule(&mut rules, "calc", "other"));
    assert!(remove_query_launch_rule(&mut rules, " Calc ", "calculator"));
    assert_eq!(rules, vec![rule("note", "Pad")]);
    assert_eq!(
        query_launch_rule_selection_count_text(&Wording::source(), 1, 2, 3),
        "Selected: 1 | Showing: 2 | Total: 3"
    );
}

#[test]
fn the_last_of_equal_keys_is_looked_up() {
    let keys = vec![Some("a".to_string()), None, Some("a".to_string())];
    assert_eq!(recent_lookup(&keys, "a"), Some(2));
    assert_eq!(recent_lookup(&keys, "b"), None);
}

#[test]
fn aliases_are_shown_with_their_paths() {
    let aliases = path_aliases();
    let shown: Vec<String> = aliases
        .iter()
        .map(|alias| alias_display_text(alias, &environment()))
        .collect();
    assert!(shown.iter().any(|text| text.contains("  ->  ")));
    let first = &shown[0];
    assert_eq!(alias_name_from_combo_text(first), aliases[0].name);
}

#[test]
fn times_before_and_after_the_epoch_are_seconds() {
    assert_eq!(unix_seconds_from_system_time(true, 5, 999), Some(5));
    assert_eq!(unix_seconds_from_system_time(false, 5, 0), Some(-5));
    assert_eq!(unix_seconds_from_system_time(true, u64::MAX, 0), None);
}

#[test]
fn bytes_are_read_one_by_one() {
    let mut at: usize = 0;
    assert_eq!(read_u8(&[7, 8], &mut at), Ok(7));
    assert_eq!(read_u8(&[7, 8], &mut at), Ok(8));
    assert_eq!(read_u8(&[7, 8], &mut at), Err(ReadError::UnexpectedEnd));
    assert_eq!(at, 2);
}

#[test]
fn folders_that_come_with_the_program_are_known_by_name() {
    let root = |raw: &str| IndexRoot {
        raw: raw.to_string(),
        path: None,
        enabled: true,
        score: 1,
        max_depth: 1,
        label: String::new(),
        keywords: Vec::new(),
    };
    let defaults = vec![root("%Desktop%"), root(r"C:\A")];
    let found = default_index_root_for(&root(r"c:\a"), &defaults).unwrap();
    assert_eq!(found.raw, r"C:\A");
    assert!(default_index_root_for(&root("D:"), &defaults).is_none());
}

#[test]
fn keys_have_their_consequences() {
    assert!(focuses_search(KeyAction::Move(1)));
    assert!(!focuses_search(KeyAction::Launch));
    assert!(is_dealt_with(KeyAction::Launch, false));
    assert!(!is_dealt_with(KeyAction::Pass, true));
    assert!(is_dealt_with(KeyAction::RecallQuery(-1), true));
    assert!(!is_dealt_with(KeyAction::RecallQuery(-1), false));
    assert_eq!(first_visible_result_index(3, 5), Some(0));
    assert_eq!(first_visible_result_index(0, 5), None);
}

#[test]
fn explanations_are_put_into_text() {
    let explanation =
        special_score_explanation(
            ResultRankingKind::RecentOrder,
            "q",
            r"C:\x.exe",
            12,
            &Wording::source(),
        );
    let text = score_explanation_text(&explanation, &Wording::source());
    assert!(text.contains(r"C:\x.exe"));
    assert!(text.contains("12"));
    assert!(text.contains("\r\n"));
}

#[test]
fn lists_are_put_in_order_and_cut() {
    let row = |title: &str, score: i32| SearchResult {
        title: title.to_string(),
        subtitle: String::new(),
        target: LaunchTarget::Path(format!(r"C:\{title}")),
        is_dir: false,
        from_history: false,
        from_query_launch_rule: false,
        ranking_kind: ResultRankingKind::Heuristic,
        explanation: None,
        display_score: score,
        score_detail: String::new(),
        score,
    };
    let rows = normalize_bounded_search_results(vec![row("a", 1), row("b", 3), row("c", 2)], 2);
    assert_eq!(titles(&rows), vec!["b", "c"]);
    let rows = normalize_bounded_search_results(vec![row("a", 1), row("b", 3)], usize::MAX);
    assert_eq!(titles(&rows), vec!["a", "b"]);
}

#[test]
fn settings_are_switches() {
    assert_eq!(parse_bool_setting(" 1 "), Some(true));
    assert_eq!(parse_bool_setting("0"), Some(false));
    assert_eq!(parse_bool_setting("yes"), None);
}

#[test]
fn patterns_let_paths_through() {
    let scoring = ScoringConfig::default();
    assert!(is_allowed_by_pattern_scoring(r"C:\Apps\Tool.EXE", &scoring));
    let none = ScoringConfig {
        pattern_rules: Vec::new(),
        ..Default::default()
    };
    assert!(!is_allowed_by_pattern_scoring(r"C:\Apps\Tool.EXE", &none));
}

#[test]
fn scoring_documents_are_read_back() {
    let entries = parse_scoring_rule_entries(&default_scoring_text());
    let text = scoring_rule_entries_to_text(&entries);
    assert!(text.starts_with("# Flash Launch scoring rules.\r\n"));
    assert_eq!(parse_scoring_rule_entries(&text), entries);
}

#[test]
fn pages_have_headers() {
    let texts: Vec<ColumnText> = ["Query", "Target"]
        .iter()
        .map(|header| ColumnText {
            header: header.to_string(),
            width: 120,
        })
        .collect();
    let columns = column_defs_for_page(SettingsPage::QueryLaunchRules, &texts);
    assert_eq!(columns, texts);
}
