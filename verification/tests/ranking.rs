use flash_launch::aliases::Environment;
use flash_launch::explanation::special_score_explanation;
use flash_launch::index_roots::SEARCH_DEPTH_ALL;
use flash_launch::items::launch_item_from_path_with_type;
use flash_launch::keys::{
    handle_key_message, page_selection_after_move, result_boundary_shortcut, search_bar_help_text,
    selection_after_move, should_route_launcher_key_to_search, top_index_after_select, KeyAction,
    KeyEvent, ResultBoundaryShortcut, KEY_BACK, KEY_DELETE, KEY_END, KEY_ESCAPE, KEY_F1, KEY_HOME,
    KEY_LEFT, KEY_NEXT, KEY_PRIOR, KEY_PROCESS, KEY_RETURN, KEY_SPACE, KEY_UP,
};
use flash_launch::presentation::result_score_breakdown_tooltip_text_for_setting;
use flash_launch::query::parse_search_query;
use flash_launch::query_rules::{
    merge_query_launch_rules_text, merge_search_history_items_text, query_launch_rule_for_query,
    record_query_launch_rule_in_memory, sync_query_launch_rules_model_from_runtime,
    QueryLaunchRule,
};
use flash_launch::results::{
    bounded_search_threshold, insert_bounded_search_result, primary_search_rank,
    progressive_search_results, score_breakdown_with_config,
    score_breakdown_with_config_and_detail, sort_search_results, LaunchTarget, ScoreBreakdown,
    SearchResult,
};
use flash_launch::text::fold_text;
use flash_launch::types::{
    IndexRoot, LaunchItem, PatternRule, ResultRankingKind, ScoringConfig, SearchQuerySpec,
};
use flash_launch::wording::{Phrase, Wording};

const DEFAULT_LIMIT: usize = 20;
const LETTER_A: u16 = 0x41;
const KEY_TAB: u16 = 0x09;

/// What the keyboard layout gives for a key: the letter, or nothing.
fn mapped(key: u16) -> u32 {
    match key {
        LETTER_A => 0x41,
        KEY_SPACE => 0x20,
        KEY_TAB => 0x09,
        KEY_RETURN => 0x0d,
        KEY_ESCAPE => 0x1b,
        KEY_BACK => 0x08,
        _ => 0,
    }
}

fn routes(key: u16, control: bool, alt: bool, windows: bool) -> bool {
    should_route_launcher_key_to_search(key, control, alt, windows, mapped(key))
}

#[test]
fn launcher_text_keys_route_to_search_without_shortcut_modifiers() {
    assert!(routes(LETTER_A, false, false, false));
    assert!(routes(KEY_SPACE, false, false, false));
    assert!(routes(KEY_BACK, false, false, false));
    assert!(routes(KEY_DELETE, false, false, false));
    assert!(routes(KEY_LEFT, false, false, false));
    assert!(routes(KEY_PROCESS, false, false, false));
}

#[test]
fn launcher_navigation_and_shortcut_keys_keep_existing_targets() {
    assert!(!routes(KEY_TAB, false, false, false));
    assert!(!routes(KEY_RETURN, false, false, false));
    assert!(!routes(KEY_ESCAPE, false, false, false));
    assert!(!routes(KEY_UP, false, false, false));
    assert!(!routes(KEY_F1, false, false, false));
    assert!(!routes(LETTER_A, true, false, false));
    assert!(!routes(LETTER_A, false, true, false));
    assert!(!routes(LETTER_A, false, false, true));
}

#[test]
fn result_boundary_shortcuts_require_control() {
    assert_eq!(result_boundary_shortcut(KEY_HOME, false), None);
    assert_eq!(result_boundary_shortcut(KEY_END, false), None);
    assert_eq!(
        result_boundary_shortcut(KEY_HOME, true),
        Some(ResultBoundaryShortcut::First)
    );
    assert_eq!(
        result_boundary_shortcut(KEY_END, true),
        Some(ResultBoundaryShortcut::Last)
    );
    assert_eq!(result_boundary_shortcut(KEY_PRIOR, true), None);
}

#[test]
fn selected_result_keeps_the_viewport_in_sync() {
    assert_eq!(top_index_after_select(0, 0, 20, 5), 0);
    assert_eq!(top_index_after_select(0, 4, 20, 5), 0);
    assert_eq!(top_index_after_select(0, 5, 20, 5), 1);
    assert_eq!(top_index_after_select(6, 4, 20, 5), 4);
    assert_eq!(top_index_after_select(15, 19, 20, 5), 15);
    assert_eq!(top_index_after_select(15, 0, 20, 5), 0);
}

#[test]
fn page_navigation_moves_selection_and_viewport_by_visible_rows() {
    assert_eq!(
        page_selection_after_move(Some(7), 5, 30, 5, 1),
        Some((12, 10))
    );
    assert_eq!(
        page_selection_after_move(Some(7), 5, 30, 5, -1),
        Some((2, 0))
    );
}

#[test]
fn page_navigation_stops_at_result_boundaries() {
    assert_eq!(
        page_selection_after_move(Some(2), 0, 30, 5, -1),
        Some((0, 0))
    );
    assert_eq!(
        page_selection_after_move(Some(27), 25, 30, 5, 1),
        Some((29, 25))
    );
    assert_eq!(
        page_selection_after_move(Some(0), 0, 30, 5, -1),
        Some((0, 0))
    );
    assert_eq!(
        page_selection_after_move(Some(29), 25, 30, 5, 1),
        Some((29, 25))
    );
}

#[test]
fn page_navigation_handles_short_lists_and_no_selection() {
    assert_eq!(page_selection_after_move(Some(1), 0, 3, 5, 1), Some((2, 0)));
    assert_eq!(
        page_selection_after_move(Some(1), 0, 3, 5, -1),
        Some((0, 0))
    );
    assert_eq!(page_selection_after_move(None, 7, 30, 5, 1), Some((0, 0)));
    assert_eq!(
        page_selection_after_move(None, 7, 30, 5, -1),
        Some((29, 25))
    );
    assert_eq!(page_selection_after_move(None, 0, 0, 5, 1), None);
}

#[test]
fn search_help_describes_page_and_boundary_navigation() {
    let help = search_bar_help_text(&None, "", &Wording::source());
    assert!(help.contains("Move the result selection by one visible page."));
    assert!(help.contains("Ctrl+Home / Ctrl+End"));
    assert!(help.contains("Select the first / last result."));
    assert!(help.contains("Shift+Enter"));
    assert!(help.contains("Open the selected item's real target folder, not the shortcut folder."));
}

fn pressed(key: u16) -> KeyEvent {
    KeyEvent {
        plain_key_down: true,
        system_key_down: false,
        key,
        hotkey_captured: false,
        in_folder_list: false,
        in_rule_list: false,
        shows_query_rules: false,
        in_launcher: true,
        in_search_field: true,
        control_pressed: false,
        alt_pressed: false,
        windows_pressed: false,
        shift_pressed: false,
        mapped: mapped(key),
    }
}

#[test]
fn keys_of_the_launcher_have_their_actions() {
    assert_eq!(handle_key_message(&pressed(KEY_RETURN)), KeyAction::Launch);
    assert_eq!(handle_key_message(&pressed(KEY_ESCAPE)), KeyAction::Escape);
    assert_eq!(handle_key_message(&pressed(KEY_NEXT)), KeyAction::MovePage(1));
    let mut shifted = pressed(KEY_RETURN);
    shifted.shift_pressed = true;
    assert_eq!(handle_key_message(&shifted), KeyAction::OpenFolder);
    let mut elsewhere = pressed(KEY_RETURN);
    elsewhere.in_launcher = false;
    elsewhere.in_search_field = false;
    assert_eq!(handle_key_message(&elsewhere), KeyAction::Pass);
}

#[test]
fn selection_moves_within_the_list() {
    assert_eq!(selection_after_move(None, 0, 1), None);
    assert_eq!(selection_after_move(Some(3), 10, 1), Some(4));
    assert_eq!(selection_after_move(Some(3), 10, -1), Some(2));
}

fn result(title: &str) -> SearchResult {
    SearchResult {
        title: title.to_string(),
        subtitle: String::new(),
        target: LaunchTarget::Path(format!(r"C:\Tools\{title}.exe")),
        is_dir: false,
        from_history: false,
        from_query_launch_rule: false,
        ranking_kind: ResultRankingKind::Heuristic,
        explanation: None,
        display_score: 0,
        score_detail: String::new(),
        score: 0,
    }
}

#[test]
fn bounded_results_insert_in_rank_order_and_keep_limit() {
    let mut best = Vec::new();
    for (title, score) in [
        ("Twenty", 20),
        ("One Hundred", 100),
        ("Sixty", 60),
        ("Forty", 40),
        ("Eighty", 80),
    ] {
        let mut candidate = result(title);
        candidate.score = score;
        insert_bounded_search_result(&mut best, candidate, 3);
    }

    assert_eq!(
        best.iter().map(|item| item.score).collect::<Vec<_>>(),
        vec![100, 80, 60]
    );
}

#[test]
fn bounded_results_use_title_and_subtitle_for_equal_scores() {
    let mut best = Vec::new();
    for (title, subtitle) in [("Beta", "A"), ("Alpha", "Z"), ("Alpha", "A")] {
        let mut candidate = result(title);
        candidate.subtitle = subtitle.to_string();
        candidate.score = 50;
        insert_bounded_search_result(&mut best, candidate, 2);
    }

    assert_eq!(
        best.iter()
            .map(|item| (item.title.as_str(), item.subtitle.as_str()))
            .collect::<Vec<_>>(),
        vec![("Alpha", "A"), ("Alpha", "Z")]
    );
}

#[test]
fn bounded_results_keep_query_rule_ahead_of_higher_scores() {
    let mut best = Vec::new();
    let mut regular = result("Regular");
    regular.score = 999;
    insert_bounded_search_result(&mut best, regular, 1);

    let mut priority = result("Priority");
    priority.score = 1;
    priority.from_query_launch_rule = true;
    priority.ranking_kind = ResultRankingKind::QueryLaunchRule;
    insert_bounded_search_result(&mut best, priority, 1);

    assert_eq!(best[0].title, "Priority");
}

#[test]
fn bounded_results_match_full_sort_for_multiple_limits_and_orders() {
    let candidates = || {
        (0..40)
            .map(|index| {
                let mut candidate = result(&format!("Result {index:02}"));
                candidate.score = (index * 37 % 101) - 50;
                candidate
            })
            .collect::<Vec<_>>()
    };

    for limit in [1, 3, 9, 25] {
        let mut expected = sort_search_results(candidates());
        expected.truncate(limit);
        for ordered in [
            candidates(),
            candidates().into_iter().rev().collect::<Vec<_>>(),
        ] {
            let mut actual = Vec::new();
            for candidate in ordered {
                insert_bounded_search_result(&mut actual, candidate, limit);
            }
            assert_eq!(
                actual.iter().map(|item| &item.title).collect::<Vec<_>>(),
                expected.iter().map(|item| &item.title).collect::<Vec<_>>()
            );
        }
    }
}

#[test]
fn bounded_threshold_rejects_only_strictly_lower_primary_rank() {
    let mut best = Vec::new();
    for score in [100, 80, 60] {
        let mut candidate = result(&format!("Result {score}"));
        candidate.score = score;
        insert_bounded_search_result(&mut best, candidate, 3);
    }
    let threshold = bounded_search_threshold(&best, 3);

    let mut lower = result("Lower");
    lower.score = 59;
    let mut equal = result("A Equal");
    equal.score = 60;

    assert!(primary_search_rank(&lower) < threshold);
    assert_eq!(primary_search_rank(&equal), threshold);
}

#[test]
fn show_all_progress_publishes_preview_without_truncating_final_candidates() {
    let best = (0..DEFAULT_LIMIT + 7)
        .map(|index| result(&format!("Result {index:03}")))
        .collect::<Vec<_>>();

    let (best, preview) = progressive_search_results(best, usize::MAX, DEFAULT_LIMIT);

    assert_eq!(preview.len(), DEFAULT_LIMIT);
    assert_eq!(best.len(), DEFAULT_LIMIT + 7);
}

#[test]
fn query_rule_results_sort_before_higher_scores() {
    let mut regular = result("Regular");
    regular.score = 999;
    regular.display_score = 999;
    let mut starred = result("Starred");
    starred.score = 1;
    starred.display_score = 1;
    starred.from_query_launch_rule = true;
    starred.ranking_kind = ResultRankingKind::QueryLaunchRule;
    starred.score_detail = "starred".to_string();

    let results = sort_search_results(vec![regular, starred]);

    assert_eq!(results[0].title, "Starred");
    assert_eq!(results[1].title, "Regular");
}

fn rule(query: &str, target: &str) -> QueryLaunchRule {
    QueryLaunchRule {
        query: query.to_string(),
        target: target.to_string(),
    }
}

#[test]
fn auto_learned_query_rule_syncs_settings_model() {
    let mut runtime_rules = vec![rule("old", r"C:\Tools\Old.exe")];
    let mut config_rules = vec![rule("old", r"C:\Tools\Old.exe")];

    assert!(record_query_launch_rule_in_memory(
        &mut runtime_rules,
        "new query",
        r"C:\Tools\New.exe",
        false,
        500,
    ));
    sync_query_launch_rules_model_from_runtime(&mut config_rules, &runtime_rules);

    assert_eq!(config_rules.len(), 2);
    assert_eq!(config_rules[0].query, "new query");
    assert_eq!(config_rules[0].target, r"C:\Tools\New.exe");
    assert!(config_rules == runtime_rules);
    assert_eq!(
        query_launch_rule_for_query(&runtime_rules, "New Query").unwrap().target,
        r"C:\Tools\New.exe"
    );
}

#[test]
fn search_history_merge_preserves_comments_and_malformed_spacing() {
    let source = "# Keep\r\nold query\r\n\r\n; Keep too";
    let merged = merge_search_history_items_text(
        source,
        &["new query".to_string(), "next query".to_string()],
    );

    assert_eq!(
        merged,
        "# Keep\r\nnew query\r\nnext query\r\n\r\n; Keep too"
    );
    assert!(!merged.ends_with(['\r', '\n']));
}

#[test]
fn query_rule_merge_preserves_unknown_lines_and_newline_style() {
    let source = "# Keep\nold query\tC:\\Old.exe\nmalformed=future\n";
    let merged = merge_query_launch_rules_text(source, &[rule("new query", r"C:\New.exe")]);

    assert_eq!(merged, "# Keep\nnew query\tC:\\New.exe\nmalformed=future\n");
}

fn query(raw: &str) -> SearchQuerySpec {
    let environment = Environment {
        variables: Vec::new(),
        app_dir: String::new(),
    };
    parse_search_query(raw, 1_700_000_000, &environment, false, false).effective_for_scoring()
}

fn folder(score: i32, label: &str) -> IndexRoot {
    IndexRoot {
        raw: "root".to_string(),
        path: Some(r"C:\ROOT".to_string()),
        enabled: true,
        score,
        max_depth: SEARCH_DEPTH_ALL,
        label: label.to_string(),
        keywords: Vec::new(),
    }
}

fn item(path: &str, root: &IndexRoot) -> LaunchItem {
    launch_item_from_path_with_type(path, false, root, None, r"C:\Work").unwrap()
}

fn explained(include_explanation: bool) -> ScoreBreakdown {
    score_breakdown_with_config_and_detail(
        &item(r"C:\ROOT\Tool.exe", &folder(0, "")),
        &query("tool"),
        0,
        &None,
        &ScoringConfig::default(),
        false,
        true,
        include_explanation,
        &Wording::source(),
    )
    .unwrap()
}

#[test]
fn score_detail_is_available_without_explanation_for_tooltip() {
    let breakdown = explained(false);
    assert!(breakdown.result.explanation.is_none());
    assert!(!breakdown.result.score_detail.is_empty());
    assert_eq!(
        result_score_breakdown_tooltip_text_for_setting(&breakdown.result, true),
        Some(breakdown.result.score_detail.clone())
    );
}

#[test]
fn enabled_score_breakdown_builds_full_explanation() {
    let breakdown = explained(true);
    let final_score = breakdown.components.final_score;
    let explanation = breakdown.result.explanation.unwrap();
    assert!(!explanation.rows.is_empty());
    assert_eq!(explanation.final_score, final_score);
}

#[test]
fn explanation_rows_sum_to_final_score_and_show_rule_states() {
    let scoring = ScoringConfig {
        folder_score_as_file_score_percent: 100,
        pattern_rules: vec![PatternRule {
            pattern: "*.exe".to_string(),
            folded_pattern: fold_text("*.exe"),
            score: 150,
            modifiers: Vec::new(),
        }],
        ..Default::default()
    };
    let mut root = folder(25, "Root");
    root.raw = r"C:\ROOT".to_string();
    let breakdown = score_breakdown_with_config(
        &item(r"C:\ROOT\games\Tool.exe", &root),
        &query("tool"),
        0,
        &None,
        &scoring,
        false,
        &Wording::source(),
    )
    .unwrap();
    let explanation = breakdown.result.explanation.as_ref().unwrap();
    let contribution_sum = explanation.rows.iter().map(|row| row.score).sum::<i32>();

    assert_eq!(explanation.relative_depth, 1);
    assert_eq!(contribution_sum, explanation.final_score);
    assert!(explanation.rows.iter().any(|row| {
        row.rule == "Folder Score As % of File Score"
            && row.input_condition == "Disabled"
            && row.score == 0
    }));
    assert!(explanation.rows.iter().any(|row| {
        row.rule == "Pattern *.exe" && row.input_condition == "Matched" && row.score == 150
    }));
    assert!(explanation
        .rows
        .iter()
        .any(|row| row.rule == "Whole query fuzzy positions"));
}

#[test]
fn special_explanations_describe_bypassed_heuristics() {
    for kind in [
        ResultRankingKind::Plugin,
        ResultRankingKind::RecentOrder,
        ResultRankingKind::QueryLaunchRule,
    ] {
        let explanation = special_score_explanation(
            kind,
            "query",
            r"C:\Tool.exe",
            42,
            &Wording::source(),
        );
        assert_eq!(explanation.ranking_kind, kind);
        assert!(
            explanation.summary.contains("heuristic") || kind == ResultRankingKind::QueryLaunchRule
        );
        assert_eq!(
            explanation.rows.iter().map(|row| row.score).sum::<i32>(),
            42
        );
    }
}

#[test]
fn explanation_rows_add_up_on_every_route() {
    let scoring = ScoringConfig::default();
    let root = folder(25, "Root");
    let sum_of = |path: &str, raw: &str| {
        let breakdown =
            score_breakdown_with_config(
                &item(path, &root),
                &query(raw),
                0,
                &None,
                &scoring,
                false,
                &Wording::source(),
            )
                .unwrap();
        let explanation = breakdown.result.explanation.unwrap();
        let sum = explanation.rows.iter().map(|row| row.score).sum::<i32>();
        assert_eq!(sum, explanation.final_score, "{path} {raw}");
        explanation
            .rows
            .iter()
            .any(|row| row.input_condition == "Token-average route selected")
    };
    assert!(!sum_of(r"C:\ROOT\games\Tool.exe", "tool"));
    assert!(!sum_of(r"C:\ROOT\games\Tool.exe", ""));
    assert!(sum_of(r"C:\ROOT\games\Panel Control.exe", "control panel"));
}

#[test]
fn explanation_rows_add_up_where_words_fit_the_folder_alone() {
    let scoring = ScoringConfig {
        length_score_weight: 0,
        leftmost_match_bonus: 0,
        compact_match_bonus: 0,
        exact_match_bonus: 40,
        exact_word_bonus: 0,
        prefix_match_bonus: 0,
        word_boundary_bonus: 0,
        consecutive_match_bonus: 0,
        acronym_match_bonus: 0,
        ..Default::default()
    };
    let breakdown = score_breakdown_with_config(
        &item(r"C:\ROOT\ab\a b", &folder(0, "")),
        &query("a b"),
        0,
        &None,
        &scoring,
        false,
        &Wording::source(),
    )
    .unwrap();
    assert_eq!(breakdown.components.text_score, 40);
    let explanation = breakdown.result.explanation.unwrap();
    let sum = explanation.rows.iter().map(|row| row.score).sum::<i32>();
    assert_eq!(sum, explanation.final_score);
}

#[test]
fn explanations_are_said_in_a_language() {
    let phrase = |source: &str, said: &str| Phrase {
        source: source.to_string(),
        said: said.to_string(),
    };
    let german = Wording {
        phrases: vec![
            phrase("Whole query", "Ganze Anfrage"),
            phrase("{} fuzzy positions", "Stellen: {}"),
            phrase("Query '{}' in '{}' at [{}]", "[{}] [{}] [{}]"),
            phrase("Not matched", "Kein Treffer"),
            phrase("max(whole {:?}, token average {:?})", "{:?} oder {:?}"),
            phrase("{} {}", "{} / {}"),
            phrase("Exact Match Bonus", "Genauer Treffer"),
            phrase("Plugin result", "Ergebnis einer Erweiterung"),
        ],
    };
    let breakdown = score_breakdown_with_config(
        &item(r"C:\ROOT\Tool.exe", &folder(0, "")),
        &query("tool"),
        0,
        &None,
        &ScoringConfig::default(),
        false,
        &german,
    )
    .unwrap();
    let rows = breakdown.result.explanation.unwrap().rows;
    assert_eq!(rows[0].rule, "Stellen: Ganze Anfrage");
    assert_eq!(rows[0].input_condition, "[tool] [tool.exe] [0, 1, 2, 3]");
    assert_eq!(rows[0].formula, "Best ordered character route");
    assert_eq!(rows[4].rule, "Ganze Anfrage / Genauer Treffer");
    assert_eq!(rows[4].input_condition, "Kein Treffer");
    assert_eq!(rows[4].formula, "candidate == query");
    assert!(rows.iter().any(|row| row.rule == "Selected text route"
        && row.formula.starts_with("Some(")
        && row.formula.ends_with(") oder None")));
    let special = special_score_explanation(ResultRankingKind::Plugin, "", "", 1, &german);
    assert_eq!(special.rows[0].input_condition, "Ergebnis einer Erweiterung");
    assert_eq!(special.rows[0].rule, "Plugin priority");
}
