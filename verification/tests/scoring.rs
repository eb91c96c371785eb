use flash_launch::aliases::{alias_path_with_env, expand_path, path_aliases, Environment};
use flash_launch::breakdown::{folder_score_adjustment, recency_date_score_at};
use flash_launch::collect::{
    ranked_score_with_config as ranked_score, HistoryEntry, HistoryTable,
};
use flash_launch::fuzzy::{fuzzy_score, fuzzy_score_numeric, fuzzy_score_parts};
use flash_launch::index_roots::{
    default_index_roots, merge_index_roots_text, normalized_index_root, SEARCH_DEPTH_ALL,
};
use flash_launch::items::modified_at_for_scoring;
use flash_launch::query::parse_search_query;
use flash_launch::query_rules::QueryLaunchRule;
use flash_launch::recents::{recent_item_key, split_recent_entry};
use flash_launch::results::{score_breakdown_with_config, ScoreBreakdown};
use flash_launch::scoring::{
    acronym_starts_with, exact_word_match, pattern_score_with_config_and_modifiers,
    score_item_path_with_config, score_item_text_with_config, score_text_with_config,
    word_boundary_match, PreparedCandidateName, PreparedQuery,
};
use flash_launch::scoring_rules::{parse_scoring_config, scoring_rule_value_is_valid};
use flash_launch::scoring_text::{
    default_scoring_text, hydrate_scoring_text, merge_scoring_rule_entries_text,
    parse_scoring_rule_entries, ScoringRuleKind,
};
use flash_launch::settings_model::{
    page_abilities, PluginAliasConfigEntry, PluginAliasModel, QueryLaunchRulesModel, ScoringModel,
    SearchFoldersModel, SettingsPage,
};
use flash_launch::text::{fold_text, searchable_text};
use flash_launch::title::{
    descendant_process_ids, format_title_timestamp, process_cpu_delta_100ns,
    process_tree_private_working_set_bytes, window_title_text_with_metrics, LocalTime,
    ProcessIdentity, ProcessResourceSample, ProgramName,
};
use flash_launch::types::{IndexRoot, LaunchItem, PatternRule, ScoringConfig, SearchQuerySpec};
use flash_launch::wildcard::wildcard_match;
use flash_launch::wording::Wording;

fn no_environment() -> Environment {
    Environment {
        variables: Vec::new(),
        app_dir: r"C:\App".to_string(),
    }
}

fn query(raw: &str) -> SearchQuerySpec {
    parse_search_query(raw, 1_700_000_000, &no_environment(), false, false).effective_for_scoring()
}

fn no_history() -> HistoryTable {
    HistoryTable { entries: Vec::new() }
}

fn breakdown(
    item: &LaunchItem,
    spec: &SearchQuerySpec,
    history: &HistoryTable,
    scoring: &ScoringConfig,
) -> Option<ScoreBreakdown> {
    let (score, raw) = history.lookup(&recent_item_key(&item.path));
    score_breakdown_with_config(item, spec, score, &raw, scoring, false, &Wording::source())
}

fn ranked_score_with_config(
    text: &str,
    item: &LaunchItem,
    history: &HistoryTable,
    scoring: &ScoringConfig,
) -> Option<i32> {
    ranked_score(text, &[], item, history, scoring, 1_700_000_000)
}

fn pattern_score_with_config(path: &str, scoring: &ScoringConfig) -> i32 {
    pattern_score_with_config_and_modifiers(path, scoring, &[])
}

fn test_item(title: &str, path: &str) -> LaunchItem {
    LaunchItem::new(title, path, path, false, 0, None)
}

fn rule(pattern: &str, score: i32) -> PatternRule {
    PatternRule {
        pattern: pattern.to_string(),
        folded_pattern: fold_text(pattern),
        score,
        modifiers: Vec::new(),
    }
}

#[test]
fn descendant_process_ids_include_nested_children_only() {
    let entries = [(10, 1), (11, 10), (12, 11), (20, 2), (21, 20)];
    let mut found = descendant_process_ids(10, &entries);
    found.sort();
    assert_eq!(found, vec![10, 11, 12]);
}

#[test]
fn process_cpu_delta_ignores_new_and_reused_processes() {
    let existing = ProcessIdentity {
        pid: 10,
        creation_time_100ns: 100,
    };
    let reused = ProcessIdentity {
        pid: 11,
        creation_time_100ns: 300,
    };
    let previous = [
        (existing, 1_000),
        (
            ProcessIdentity {
                pid: 11,
                creation_time_100ns: 200,
            },
            5_000,
        ),
    ];
    let current = [
        ProcessResourceSample {
            identity: existing,
            cpu_time_100ns: 1_750,
            private_working_set_bytes: Some(100),
        },
        ProcessResourceSample {
            identity: reused,
            cpu_time_100ns: 250,
            private_working_set_bytes: Some(200),
        },
        ProcessResourceSample {
            identity: ProcessIdentity {
                pid: 12,
                creation_time_100ns: 400,
            },
            cpu_time_100ns: 900,
            private_working_set_bytes: None,
        },
    ];

    assert_eq!(process_cpu_delta_100ns(&previous, &current), 750);
}

#[test]
fn process_tree_memory_sums_available_samples() {
    let sample = |pid: u32, created: u64, bytes: Option<u64>| ProcessResourceSample {
        identity: ProcessIdentity {
            pid,
            creation_time_100ns: created,
        },
        cpu_time_100ns: 0,
        private_working_set_bytes: bytes,
    };
    let samples = [
        sample(10, 100, Some(128)),
        sample(11, 200, None),
        sample(12, 300, Some(256)),
    ];

    assert_eq!(process_tree_private_working_set_bytes(&samples), Some(384));
    assert_eq!(process_tree_private_working_set_bytes(&[]), None);
}

fn july_first() -> LocalTime {
    LocalTime {
        year: 2026,
        month: 7,
        day_of_week: 3,
        day: 1,
        hour: 6,
        minute: 10,
    }
}

#[test]
fn window_title_metrics_follow_independent_visibility_settings() {
    let program = ProgramName {
        name: "Flash Launch".to_string(),
        version: "1.0".to_string(),
        build_time: "2026-07-01".to_string(),
    };
    let title = |build: bool, cpu: Option<u32>, memory: Option<String>| {
        window_title_text_with_metrics(
            &Wording::source(),
            &program,
            build,
            cpu,
            memory,
            &july_first(),
        )
    };
    let both = title(true, Some(3), Some("140 MB".to_string()));
    assert!(both.contains(" | 3% 140 MB | "));

    let cpu_only = title(true, Some(3), None);
    assert!(cpu_only.contains(" | 3% | "));
    assert!(!cpu_only.contains("MB"));

    let ram_only = title(true, None, Some("140 MB".to_string()));
    assert!(ram_only.contains(" | 140 MB | "));
    assert!(!ram_only.contains("%"));

    let neither = title(true, None, None);
    assert!(!neither.contains(" MB"));
    assert!(!neither.contains('%'));

    let hidden_build = title(false, None, None);
    assert!(!hidden_build.contains("2026-07-01"));
}

#[test]
fn launch_item_caches_searchable_path_parts() {
    let item = LaunchItem::new(
        "Chrome.exe",
        "Application",
        r"C:\Program Files\Google\Chrome\Application\Chrome.exe",
        false,
        0,
        None,
    );

    assert_eq!(item.folded_title, fold_text("Chrome.exe"));
    assert_eq!(item.folded_stem, fold_text("Chrome"));
    assert_eq!(
        item.folded_parent,
        searchable_text(r"C:\Program Files\Google\Chrome\Application")
    );
}

#[test]
fn multi_word_file_uses_best_full_filename_or_token_average_score() {
    let scoring = ScoringConfig {
        folder_score_as_file_score_percent: 100,
        ..Default::default()
    };
    let file = LaunchItem::new(
        "Work Tool.exe",
        "Apps\\",
        r"C:\Apps\Work Tool.exe",
        false,
        0,
        None,
    );
    let folder = LaunchItem::new("Work Tool", "Apps\\", r"C:\Apps\Work Tool", true, 0, None);
    let whole_filename_score =
        score_text_with_config("work tool", "work tool.exe", false, &scoring).unwrap();
    let file_text_score = score_item_text_with_config("work tool", &file, &scoring).unwrap();
    let reversed_text_score = score_item_text_with_config("tool work", &file, &scoring).unwrap();

    assert_eq!(
        file_text_score,
        whole_filename_score + scoring.exact_match_bonus
    );
    assert!(reversed_text_score < file_text_score);
    assert!(
        ranked_score_with_config("work tool", &file, &no_history(), &scoring)
            > ranked_score_with_config("work tool", &folder, &no_history(), &scoring)
    );
}

#[test]
fn multi_word_query_matches_file_name_and_parent_in_any_order() {
    let scoring = ScoringConfig {
        folder_score_as_file_score_percent: 100,
        ..Default::default()
    };
    let item = LaunchItem::new(
        "Ultrasurf.lnk",
        r"C:\Users\TestUser\Desktop\IP",
        r"C:\Users\TestUser\Desktop\IP\Ultrasurf.lnk",
        false,
        0,
        None,
    );
    let recent_items = no_history();

    let forward_text = score_item_text_with_config("ip ultrasurf", &item, &scoring).unwrap();
    let reversed_text = score_item_text_with_config("ultrasurf ip", &item, &scoring).unwrap();
    assert_eq!(forward_text, reversed_text);
    assert_eq!(
        score_item_path_with_config("ip ultrasurf", &item, &scoring),
        scoring.explicit_folder_name_match_adjustment
    );
    assert_eq!(
        score_item_path_with_config("ultrasurf ip", &item, &scoring),
        scoring.explicit_folder_name_match_adjustment
    );

    let forward_score =
        ranked_score_with_config("ip ultrasurf", &item, &recent_items, &scoring).unwrap();
    let reversed_score =
        ranked_score_with_config("ultrasurf ip", &item, &recent_items, &scoring).unwrap();
    assert_eq!(forward_score, reversed_score);
    assert!(ranked_score_with_config("ip", &item, &recent_items, &scoring).is_none());
    assert!(
        ranked_score_with_config("missing ultrasurf", &item, &recent_items, &scoring).is_none()
    );
}

#[test]
fn empty_text_query_never_receives_folder_path_adjustment() {
    let scoring = ScoringConfig {
        pattern_rules: vec![rule("*help*", -100)],
        ..Default::default()
    };
    let mut item = test_item("Help.txt", r"C:\Docs\Help.txt");
    item.index_score = 50;
    let spec = query("+docs");

    assert!(spec.folded_search_text.is_empty());
    assert_eq!(score_item_path_with_config("", &item, &scoring), 0);
    assert_eq!(score_item_path_with_config("   ", &item, &scoring), 0);
    let found = breakdown(&item, &spec, &no_history(), &scoring).unwrap();
    assert_eq!(found.components.path_score, 0);
    assert!(found.components.final_score <= 0);
}

#[test]
fn pattern_score_sums_in_i64_before_clamping() {
    let path = r"C:\Apps\Tool.exe";
    let positive_overflow = ScoringConfig {
        pattern_rules: vec![rule("*", i32::MAX), rule("*", 1)],
        ..Default::default()
    };
    let negative_overflow = ScoringConfig {
        pattern_rules: vec![rule("*", i32::MIN), rule("*", -1)],
        ..Default::default()
    };
    let mixed = ScoringConfig {
        pattern_rules: vec![rule("*", i32::MAX), rule("*", i32::MAX), rule("*", i32::MIN)],
        ..Default::default()
    };

    assert_eq!(pattern_score_with_config(path, &positive_overflow), i32::MAX);
    assert_eq!(pattern_score_with_config(path, &negative_overflow), i32::MIN);
    assert_eq!(pattern_score_with_config(path, &mixed), i32::MAX - 1);
}

#[test]
fn recency_date_score_obeys_all_day_boundaries() {
    const DAY: i64 = 86_400;
    let scoring = ScoringConfig {
        recency_date_bonus: 100,
        recency_date_enabled: true,
        ..Default::default()
    };
    let now = 400 * DAY;

    assert_eq!(recency_date_score_at(Some(now - DAY + 1), now, &scoring), 100);
    assert_eq!(recency_date_score_at(Some(now - DAY), now, &scoring), 50);
    assert_eq!(recency_date_score_at(Some(now - 29 * DAY), now, &scoring), 50);
    assert_eq!(recency_date_score_at(Some(now - 30 * DAY), now, &scoring), 25);
    assert_eq!(recency_date_score_at(Some(now - 364 * DAY), now, &scoring), 25);
    assert_eq!(recency_date_score_at(Some(now - 365 * DAY), now, &scoring), 0);
    assert_eq!(recency_date_score_at(Some(now + 1), now, &scoring), 100);
    assert_eq!(recency_date_score_at(None, now, &scoring), 0);
}

#[test]
fn indexed_item_recency_decreases_without_rebuilding_item() {
    const DAY: i64 = 86_400;
    let scoring = ScoringConfig {
        recency_date_bonus: 100,
        recency_date_enabled: true,
        pattern_rules: Vec::new(),
        ..Default::default()
    };
    let modified_at = 1_700_000_000;
    let item = LaunchItem::new(
        "Report.txt",
        "Docs\\",
        r"C:\Docs\Report.txt",
        false,
        100,
        Some(modified_at),
    );
    let mut spec = query("report");
    let mut recency = |now: i64| {
        spec.scoring_time_unix_seconds = now;
        breakdown(&item, &spec, &no_history(), &scoring)
            .unwrap()
            .components
            .recency_score
    };

    assert_eq!(recency(modified_at + DAY - 1), 100);
    assert_eq!(recency(modified_at + 30 * DAY), 25);
    assert_eq!(recency(modified_at + 365 * DAY), 0);
    assert_eq!(item.modified_at_unix_seconds, Some(modified_at));
}

#[test]
fn title_timestamp_uses_english_format() {
    assert_eq!(
        format_title_timestamp(&july_first(), &Wording::source()),
        "Wednesday July 01, 2026 - 6:10 AM"
    );
}

#[test]
fn numeric_fuzzy_matches_reference_for_ascii_and_unicode() {
    let scoring = ScoringConfig::default();
    for (query, candidate) in [
        ("chr", "chrome.exe"),
        ("cde", "visual code.exe"),
        ("aa", "a-long-a-name"),
        ("中文", "快速中文搜索"),
        ("đn", "điện năng"),
        ("ệ", "điện"),
    ] {
        assert_eq!(
            fuzzy_score_numeric(query, candidate, &scoring),
            fuzzy_score_parts(query, candidate, &scoring).map(|parts| parts.total),
            "query={query:?} candidate={candidate:?}"
        );
    }
}

#[test]
fn prepared_multi_token_score_matches_reference_item_score() {
    let scoring = ScoringConfig::default();
    for (text, path) in [
        ("visual code", r"C:\\Apps\\Visual Studio Code.exe"),
        ("code studio", r"C:\\Apps\\Visual Studio Code.exe"),
        ("中文 搜索", r"C:\\Apps\\快速中文搜索.exe"),
        (
            "ip ultrasurf",
            r"C:\\Users\\TestUser\\Desktop\\IP\\Ultrasurf.lnk",
        ),
        (
            "ultrasurf ip",
            r"C:\\Users\\TestUser\\Desktop\\IP\\Ultrasurf.lnk",
        ),
    ] {
        let spec = query(text);
        let prepared_query = PreparedQuery::new(&spec, &scoring);
        let prepared_name = PreparedCandidateName::from_path(path).unwrap();
        let item = test_item(path.rsplit('\\').next().unwrap(), path);
        assert_eq!(
            prepared_query.score_candidate_name(
                &prepared_name,
                &item.folded_parent,
                false,
                &scoring,
            ),
            score_item_text_with_config(&spec.folded_search_text, &item, &scoring),
            "query={text:?} path={path:?}"
        );
    }
}

#[test]
fn compiled_pattern_matchers_equal_reference_wildcards() {
    let scoring = ScoringConfig {
        pattern_rules: [
            ("*", 1),
            ("exact.txt", 2),
            ("*.exe", 4),
            ("chrome*", 8),
            ("*readme", 16),
            ("*help*", 32),
            ("c?de*.rs", 64),
            (r"c:\\apps\\*\\tool.exe", 128),
        ]
        .into_iter()
        .map(|(pattern, score)| rule(pattern, score))
        .collect(),
        ..Default::default()
    };
    let spec = query("tool");
    let prepared_query = PreparedQuery::new(&spec, &scoring);
    for path in [
        r"C:\\Apps\\Browser\\chrome.exe",
        r"C:\\Apps\\Docs\\readme",
        r"C:\\Apps\\Code\\code-main.rs",
        r"C:\\Apps\\Suite\\tool.exe",
        r"C:\\Other\\exact.txt",
    ] {
        let folded_file_name = fold_text(path.rsplit('\\').next().unwrap());
        assert_eq!(
            prepared_query.pattern_score(path, &folded_file_name),
            pattern_score_with_config_and_modifiers(path, &scoring, &[]),
            "path={path:?}"
        );
    }
}

#[test]
fn disabled_recency_does_not_load_metadata() {
    let disabled = ScoringConfig {
        recency_date_enabled: false,
        ..Default::default()
    };
    let enabled = ScoringConfig {
        recency_date_enabled: true,
        ..Default::default()
    };
    let calls = std::cell::Cell::new(0usize);
    let disabled_value = modified_at_for_scoring(&disabled, || {
        calls.set(calls.get() + 1);
        Some(123)
    });
    assert_eq!(disabled_value, None);
    assert_eq!(calls.get(), 0);
    let enabled_value = modified_at_for_scoring(&enabled, || {
        calls.set(calls.get() + 1);
        Some(123)
    });
    assert_eq!(enabled_value, Some(123));
    assert_eq!(calls.get(), 1);
}

#[test]
fn fuzzy_score_rewards_consecutive_and_leftmost_matches() {
    let scoring = ScoringConfig::default();

    assert!(fuzzy_score("abc", "abc", &scoring) > fuzzy_score("abc", "axbyc", &scoring));
    assert!(fuzzy_score("abc", "abc", &scoring) > fuzzy_score("abc", "zzzabc", &scoring));
}

#[test]
fn exact_word_bonus_prefers_code_word_over_codex_prefix() {
    let scoring = ScoringConfig::default();

    let code_word = score_text_with_config("code", "code tool", false, &scoring).unwrap();
    let codex_prefix = score_text_with_config("code", "codex tool", false, &scoring).unwrap();

    assert!(code_word > codex_prefix);
}

#[test]
fn filename_scoring_uses_full_name_preserves_separators_and_tokenizes_spaces() {
    let scoring = ScoringConfig::default();
    let underscore = test_item("codex_config.toml", r"C:\Apps\codex_config.toml");
    let hyphen = test_item("codex-config.toml", r"C:\Apps\codex-config.toml");

    assert!(
        score_item_text_with_config("codex_config", &underscore, &scoring)
            > score_item_text_with_config("codex_config", &hyphen, &scoring)
    );
    assert!(score_item_text_with_config("codex-config", &hyphen, &scoring).is_some());
    assert!(score_item_text_with_config("codex config", &underscore, &scoring).is_some());
    assert!(score_item_text_with_config("codex config", &hyphen, &scoring).is_some());
    for (text, title, path) in [
        ("c++", "C++ Tools", r"C:\Apps\C++ Tools.txt"),
        ("c#", "C# Tools", r"C:\Apps\C# Tools.txt"),
        ("(beta)", "App (Beta).exe", r"C:\Apps\App (Beta).exe"),
        ("alpha—beta", "Alpha—Beta.txt", r"C:\Apps\Alpha—Beta.txt"),
    ] {
        assert!(score_item_text_with_config(text, &test_item(title, path), &scoring).is_some());
    }
}

#[test]
fn full_filename_and_exact_stem_scoring_cover_extension_and_cumulative_bonuses() {
    let item = test_item("tool.exe", r"C:\Apps\tool.exe");
    let with_exact = ScoringConfig::default();
    let without_exact = ScoringConfig {
        exact_match_bonus: 0,
        ..Default::default()
    };

    let exact_score = score_item_text_with_config("tool", &item, &with_exact).unwrap();
    let baseline = score_item_text_with_config("tool", &item, &without_exact).unwrap();

    assert_eq!(exact_score - baseline, with_exact.exact_match_bonus);
    assert!(score_item_text_with_config("to", &item, &with_exact).is_some());
    assert!(score_item_text_with_config("exe", &item, &with_exact).is_some());
}

#[test]
fn multi_token_code_to_prefers_real_words_while_to_matches_toml_extension() {
    let scoring = ScoringConfig::default();
    let merger = test_item("Code Merger Tool.exe", r"C:\Apps\Code Merger Tool.exe");
    let config = test_item(
        "codex_config_config.toml",
        r"C:\Apps\codex_config_config.toml",
    );

    let merger_score = score_item_text_with_config("code to", &merger, &scoring).unwrap();
    let config_score = score_item_text_with_config("code to", &config, &scoring).unwrap();

    assert!(merger_score > config_score);
    assert!(score_item_text_with_config("to", &config, &scoring).is_some());
}

#[test]
fn leftmost_formula_uses_configured_bonus_and_distance_penalty() {
    let default = ScoringConfig::default();
    let custom = ScoringConfig {
        leftmost_match_bonus: 100,
        leftmost_distance_penalty: 3,
        ..Default::default()
    };
    let disabled = ScoringConfig {
        leftmost_match_bonus: 0,
        leftmost_distance_penalty: 0,
        ..Default::default()
    };

    assert_eq!(fuzzy_score("a", "zabcdefghi", &default), Some(39));
    assert_eq!(fuzzy_score("a", "zabcdefghi", &custom), Some(116));
    assert_eq!(fuzzy_score("a", "zabcdefghi", &disabled), Some(19));
}

#[test]
fn fuzzy_formula_uses_independent_length_and_compact_rules() {
    let default = ScoringConfig::default();
    assert_eq!(default.length_score_weight, 90);
    assert_eq!(default.compact_match_bonus, 10);
    assert_eq!(fuzzy_score("abc", "abc", &default), Some(125));

    let custom = ScoringConfig {
        length_score_weight: 300,
        compact_match_bonus: 100,
        ..Default::default()
    };
    assert_eq!(fuzzy_score("ab", "abcde", &custom), Some(245));

    let disabled_components = ScoringConfig {
        length_score_weight: 0,
        compact_match_bonus: 0,
        ..Default::default()
    };
    assert_eq!(fuzzy_score("ab", "abcde", &disabled_components), Some(25));

    let uncapped = ScoringConfig {
        length_score_weight: 300,
        compact_match_bonus: 100,
        ..Default::default()
    };
    assert_eq!(fuzzy_score("abc", "abc", &uncapped), Some(425));
}

#[test]
fn exact_prefix_substring_and_scattered_rank_in_order() {
    let scoring = ScoringConfig::default();
    let exact = score_text_with_config("chrome", "chrome", false, &scoring).unwrap();
    let prefix = score_text_with_config("chr", "chrome", false, &scoring).unwrap();
    let substring = score_text_with_config("ome", "chrome", false, &scoring).unwrap();
    let scattered = score_text_with_config("coe", "chrome", false, &scoring).unwrap();

    assert!(exact > prefix);
    assert!(prefix > substring);
    assert!(substring > scattered);
}

#[test]
fn score_ranges_stay_near_human_scale() {
    let scoring = ScoringConfig::default();
    let item = test_item("Chrome", r#"C:\Apps\Chrome.exe"#);
    let exact = ranked_score_with_config("chrome", &item, &no_history(), &scoring).unwrap();
    let scattered = score_text_with_config("coe", "chrome", false, &scoring).unwrap();

    assert!((450..=1000).contains(&exact), "exact score was {exact}");
    assert!(scattered <= 200, "scattered score was {scattered}");
}

fn history_of(path: &str, score: i32) -> HistoryTable {
    HistoryTable {
        entries: vec![HistoryEntry {
            key: path.to_string(),
            score,
            raw: Some(score.to_string()),
        }],
    }
}

#[test]
fn prefix_can_beat_unrelated_history_fuzzy_match() {
    let scoring = ScoringConfig::default();
    let prefix = test_item("Chrome", r#"C:\Apps\Chrome.exe"#);
    let fuzzy = test_item("Character Map", r#"C:\Tools\Character Map.exe"#);
    let recent = history_of(&fuzzy.path, 220);

    let prefix_score = ranked_score_with_config("chr", &prefix, &recent, &scoring).unwrap();
    let fuzzy_score = ranked_score_with_config("chr", &fuzzy, &recent, &scoring).unwrap();

    assert!(prefix_score > fuzzy_score);
}

#[test]
fn pattern_bonus_and_index_root_still_affect_rank() {
    let scoring = ScoringConfig::default();
    let plain = test_item("Tool", r#"C:\Apps\Tool.dat"#);
    let exe = test_item("Tool", r#"C:\Apps\Tool.exe"#);
    let mut indexed = test_item("Tool", r#"C:\Preferred\Tool.dat"#);
    indexed.index_score = 50;

    let plain_score = ranked_score_with_config("tool", &plain, &no_history(), &scoring).unwrap();
    let exe_score = ranked_score_with_config("tool", &exe, &no_history(), &scoring).unwrap();
    let indexed_score =
        ranked_score_with_config("tool", &indexed, &no_history(), &scoring).unwrap();

    assert!(exe_score > plain_score);
    assert!(indexed_score > plain_score);
}

#[test]
fn executable_and_shortcut_scores_come_only_from_pattern_rules() {
    let scoring = ScoringConfig::default();
    let spec = query("tool");
    let exe = test_item("Tool", r"C:\Apps\Tool.exe");
    let shortcut = test_item("Tool", r"C:\Apps\Tool.lnk");

    let exe_breakdown = breakdown(&exe, &spec, &no_history(), &scoring).unwrap();
    let shortcut_breakdown = breakdown(&shortcut, &spec, &no_history(), &scoring).unwrap();

    assert_eq!(exe_breakdown.components.pattern_score, 150);
    assert_eq!(exe_breakdown.components.folder_score, 0);
    assert_eq!(shortcut_breakdown.components.pattern_score, 50);
    assert_eq!(shortcut_breakdown.components.folder_score, 0);
    assert!(exe_breakdown.result.score_detail.contains("pattern 150"));
    assert!(exe_breakdown.result.score_detail.contains("folder 0"));
}

#[test]
fn files_receive_no_adjustment_while_folder_and_recency_scoring_remain() {
    let scoring = ScoringConfig {
        folder_score_as_file_score_percent: 125,
        recency_date_bonus: 100,
        recency_date_enabled: true,
        ..Default::default()
    };
    let script = test_item("Tool", r"C:\Apps\Tool.bat");
    let folder = LaunchItem::new("Tool", "Apps", r"C:\Apps\Tool", true, 0, None);

    assert_eq!(folder_score_adjustment(&script, 200, &scoring), 0);
    assert_eq!(folder_score_adjustment(&folder, 200, &scoring), 50);
    assert_eq!(
        folder_score_adjustment(&folder, 200, &ScoringConfig::default()),
        -20
    );
    assert_eq!(recency_date_score_at(Some(1_000), 1_000, &scoring), 100);
    let disabled = ScoringConfig {
        recency_date_enabled: false,
        ..scoring
    };
    assert_eq!(recency_date_score_at(Some(1_000), 1_000, &disabled), 0);
}

#[test]
fn legacy_scoring_sections_rules_and_modifiers_are_ignored() {
    let content = "[Heuristics]\n\
         Exact Match Bonus=999\n\
         [HeuristicScoring]\n\
         Word Prefix Match Bonus=777\n\
         Exact Match Bonus=500\n\
         [Patterns]\n\
         *.exe=999\n\
         [PatternScoring]\n\
         *.exe=150 | modifier=tools\n";
    let parsed = parse_scoring_config(content);
    let entries = parse_scoring_rule_entries(content);

    assert_eq!(parsed.exact_match_bonus, 500);
    assert_eq!(parsed.word_boundary_bonus, 0);
    assert_eq!(parsed.pattern_rules.len(), 1);
    assert_eq!(parsed.pattern_rules[0].score, 150);
    assert!(parsed.pattern_rules[0].modifiers.is_empty());
    assert_eq!(entries.len(), 2);
    assert!(entries
        .iter()
        .all(|entry| entry.key != "Word Prefix Match Bonus"));
}

#[test]
fn recent_items_require_canonical_scored_syntax() {
    let reads = |entry: &str| {
        split_recent_entry(entry).is_some_and(|parts| parts.score.parse::<f32>().is_ok())
    };
    assert!(!reads(r"C:\Apps\Tool.exe"));
    assert!(!reads(r"100>C:\Apps\Tool.exe"));
    assert!(reads(r"100>>>C:\Apps\Tool.exe"));
    assert!(reads(r"100<<<C:\Apps\Tool.exe"));
}

#[test]
fn default_scoring_text_has_comments_and_disabled_rules_parse() {
    let text = default_scoring_text();

    assert!(text.contains("# Strong boost when the query exactly matches"));
    assert!(text.contains("# Penalty per folder level relative to the owning Search Folder."));
    assert!(text.contains("Recency Date Bonus<<<50"));
    for removed in [
        "Script Bonus",
        "Long Path Penalty",
        "Long Path Threshold",
        "Fuzzy Score Ceiling",
    ] {
        assert!(!text.contains(removed));
    }
    let folder_score_percent_index = text
        .find("Folder Score As % of File Score=90")
        .expect("Folder score percentage default");
    let recency_date_index = text
        .find("Recency Date Bonus<<<50")
        .expect("Recency Date Bonus default");
    assert!(folder_score_percent_index < recency_date_index);

    let entries = parse_scoring_rule_entries(&text);
    assert!(entries.iter().any(|entry| entry.key == "Exact Match Bonus"));
    assert!(entries
        .iter()
        .any(|entry| entry.key == "Recency Date Bonus" && !entry.enabled));
    assert!(!entries.iter().any(|entry| entry.key.starts_with('#')));
}

#[test]
fn scoring_hydration_inserts_missing_rules_into_their_sections() {
    let content = "# Keep\n\
         [HeuristicScoring]\n\
         Recent Launch Increment=25\n\
         custom malformed line\n";

    let hydrated = hydrate_scoring_text(content, &default_scoring_text());
    let pattern_section = hydrated.find("[PatternScoring]").unwrap();
    let executable_rule = hydrated.find("*.exe=150").unwrap();
    let parsed = parse_scoring_config(&hydrated);

    assert!(hydrated.contains("# Keep\n"));
    assert!(hydrated.contains("custom malformed line\n"));
    assert!(executable_rule > pattern_section);
    assert_eq!(parsed.recent_launch_increment, 25);
    assert_eq!(parsed.exact_word_bonus, 75);
    assert_eq!(parsed.leftmost_match_bonus, 25);
    assert_eq!(parsed.leftmost_distance_penalty, 5);
    assert_eq!(parsed.length_score_weight, 90);
    assert_eq!(parsed.compact_match_bonus, 10);
    assert_eq!(pattern_score_with_config(r"C:\Apps\Tool.exe", &parsed), 150);
}

#[test]
fn disabled_default_scoring_rule_counts_as_present_during_hydration() {
    let content = "[HeuristicScoring]\n\
         Folder Score As % of File Score<<<90\n\
         \n\
         [PatternScoring]\n";

    let hydrated = hydrate_scoring_text(content, &default_scoring_text());

    assert_eq!(
        hydrated
            .matches("Folder Score As % of File Score<<<90")
            .count(),
        1
    );
    assert_eq!(
        parse_scoring_config(&hydrated).folder_score_as_file_score_percent,
        0
    );
}

#[test]
fn scoring_default_matches_hydrated_production_defaults() {
    let expected = ScoringConfig::default();
    let actual = parse_scoring_config(&default_scoring_text());
    assert_eq!(
        actual.recent_first_launch_score,
        expected.recent_first_launch_score
    );
    assert_eq!(
        actual.recent_launch_increment,
        expected.recent_launch_increment
    );
    assert_eq!(actual.exact_match_bonus, expected.exact_match_bonus);
    assert_eq!(actual.prefix_match_bonus, expected.prefix_match_bonus);
    assert_eq!(actual.word_boundary_bonus, expected.word_boundary_bonus);
    assert_eq!(
        actual.consecutive_match_bonus,
        expected.consecutive_match_bonus
    );
    assert_eq!(actual.acronym_match_bonus, expected.acronym_match_bonus);
    assert_eq!(actual.recent_score_ceiling, expected.recent_score_ceiling);
    assert_eq!(
        actual.explicit_folder_name_match_adjustment,
        expected.explicit_folder_name_match_adjustment
    );
    assert_eq!(
        actual.folder_score_as_file_score_percent,
        expected.folder_score_as_file_score_percent
    );
    assert_eq!(actual.path_depth_penalty, expected.path_depth_penalty);
    assert_eq!(actual.length_score_weight, expected.length_score_weight);
    assert_eq!(actual.compact_match_bonus, expected.compact_match_bonus);
    assert_eq!(actual.recency_date_bonus, expected.recency_date_bonus);
    assert_eq!(actual.recency_date_enabled, expected.recency_date_enabled);
    assert_eq!(actual.pattern_rules, expected.pattern_rules);
    assert_eq!(actual, expected);
}

#[test]
fn parser_supports_custom_and_disabled_new_scoring_rules() {
    let parsed = parse_scoring_config(
        "[HeuristicScoring]\n\
         Exact Word Bonus=275\n\
         Leftmost Match Bonus<<<90\n\
         Leftmost Distance Penalty=3\n",
    );

    assert_eq!(parsed.exact_word_bonus, 275);
    assert_eq!(parsed.leftmost_match_bonus, 0);
    assert_eq!(parsed.leftmost_distance_penalty, 3);
}

#[test]
fn parser_supports_custom_and_disabled_independent_fuzzy_rules() {
    let custom = parse_scoring_config(
        "[HeuristicScoring]\n\
         Length Score Weight=240\n\
         Compact Match Bonus=35\n",
    );
    assert_eq!(custom.length_score_weight, 240);
    assert_eq!(custom.compact_match_bonus, 35);

    let disabled = parse_scoring_config(
        "[HeuristicScoring]\n\
         Length Score Weight<<<180\n\
         Compact Match Bonus<<<20\n",
    );
    assert_eq!(disabled.length_score_weight, 0);
    assert_eq!(disabled.compact_match_bonus, 0);
}

#[test]
fn independent_fuzzy_rules_require_non_negative_integers() {
    for key in ["Length Score Weight", "Compact Match Bonus"] {
        assert!(scoring_rule_value_is_valid(key, "0"));
        assert!(scoring_rule_value_is_valid(key, "250"));
        assert!(!scoring_rule_value_is_valid(key, "-1"));
        assert!(!scoring_rule_value_is_valid(key, "1.5"));
    }
    assert!(scoring_rule_value_is_valid("Exact Match Bonus", "-100"));
}

#[test]
fn required_config_merges_preserve_opaque_lines() {
    let root = IndexRoot {
        raw: r"C:\New".to_string(),
        path: Some(r"C:\New".to_string()),
        enabled: true,
        score: 33,
        max_depth: 2,
        label: String::new(),
        keywords: vec!["new".to_string()],
    };
    let index_source = "# Keep\r\n\
         future=value\r\n\
         C:\\Old | enabled=1 | score=1 | depth=-1\r\n\
         malformed | score=bad\r\n";
    let merged_index =
        merge_index_roots_text(index_source, &[root], &no_environment(), SEARCH_DEPTH_ALL);
    assert!(merged_index.contains("# Keep\r\nfuture=value\r\n"));
    assert!(merged_index.contains("malformed | score=bad\r\n"));
    assert!(merged_index.contains("C:\\\\New | enabled=1 | score=33 | depth=2 | keywords=new"));
    assert!(!merged_index.contains("C:\\Old"));

    let scoring_source = "# Keep\n\
         [HeuristicScoring]\n\
         Exact Match Bonus=250\n\
         future malformed\n\
         \n\
         [PatternScoring]\n\
         *.exe=150\n\
         broken=not-a-number\n";
    let entries = parse_scoring_rule_entries(&default_scoring_text());
    let merged_scoring = merge_scoring_rule_entries_text(scoring_source, &entries);
    assert!(merged_scoring.contains("# Keep\n"));
    assert!(merged_scoring.contains("future malformed\n"));
    assert!(merged_scoring.contains("broken=not-a-number\n"));
    assert_eq!(merged_scoring.matches("Exact Match Bonus=250").count(), 1);
    assert_eq!(merged_scoring.matches("Length Score Weight=90").count(), 1);
    assert_eq!(merged_scoring.matches("Compact Match Bonus=10").count(), 1);
}

fn some_default_roots() -> Vec<IndexRoot> {
    default_index_roots(
        "C:\\\\Apps | enabled=1 | score=10 | depth=-1\nC:\\\\Tools | enabled=0 | score=5 | depth=3\n",
        &no_environment(),
        SEARCH_DEPTH_ALL,
    )
}

#[test]
fn search_folder_delete_keeps_defaults_and_removes_custom() {
    let mut roots = some_default_roots();
    let default_count = roots.len();
    assert_eq!(default_count, 2);
    let custom = normalized_index_root(
        IndexRoot {
            raw: r"D:\Apps".to_string(),
            path: None,
            enabled: true,
            score: 100,
            max_depth: SEARCH_DEPTH_ALL,
            label: String::new(),
            keywords: Vec::new(),
        },
        &no_environment(),
    );
    roots.push(custom);

    let mut model = SearchFoldersModel {
        roots,
        defaults: some_default_roots(),
    };

    assert!(!model.delete_row(0));
    assert_eq!(model.row_count(), default_count + 1);
    assert!(model.delete_row(default_count));
    assert_eq!(model.row_count(), default_count);
}

#[test]
fn settings_table_models_advertise_shared_capabilities() {
    let search = page_abilities(SettingsPage::SearchFolders);
    assert!(search.multi_select);
    assert!(search.toggle);
    assert!(search.add_rows);
    assert!(search.delete_rows);
    assert!(search.reset_default);
    assert!(search.move_rows);

    let query_model = QueryLaunchRulesModel {
        items: vec![QueryLaunchRule {
            query: "calc".to_string(),
            target: "Calculator".to_string(),
        }],
    };
    let rules = page_abilities(SettingsPage::QueryLaunchRules);
    assert!(rules.multi_select);
    assert!(rules.delete_rows);
    assert!(!rules.toggle);
    assert_eq!(query_model.cell_text(0, 1), "Calculator");

    let mut alias_model = PluginAliasModel {
        entries: vec![PluginAliasConfigEntry {
            id: "calculator".to_string(),
            name: "Calculator".to_string(),
            alias: "c".to_string(),
            default_alias: "calc".to_string(),
        }],
    };
    let aliases = page_abilities(SettingsPage::PluginAliases);
    assert!(aliases.multi_select);
    assert!(aliases.reset_default);
    assert!(alias_model.reset_row_to_default(0));
    assert_eq!(alias_model.cell_text(0, 1), "calc");

    let heuristic = page_abilities(SettingsPage::HeuristicScoring);
    assert!(heuristic.multi_select);
    assert!(heuristic.toggle);
    assert!(heuristic.reset_default);
    assert!(!heuristic.delete_rows);
    assert!(!heuristic.move_rows);

    let pattern = page_abilities(SettingsPage::PatternScoring);
    assert!(pattern.add_rows);
    assert!(pattern.delete_rows);
    assert!(pattern.move_rows);
    assert!(pattern.modifier_help);
}

fn heuristic_model() -> ScoringModel {
    ScoringModel {
        rules: parse_scoring_rule_entries(&default_scoring_text()),
        kind: ScoringRuleKind::Heuristic,
    }
}

fn row_of(model: &ScoringModel, key: &str) -> usize {
    (0..model.visible_count())
        .find(|row| model.rules[model.actual_index(*row).unwrap()].key == key)
        .unwrap()
}

fn cell(model: &ScoringModel, row: usize, column: usize) -> String {
    let key = model.rules[model.actual_index(row).unwrap()].key.clone();
    model.cell_text(row, column, &key, "note")
}

#[test]
fn heuristic_settings_model_edits_toggles_and_resets_new_rules() {
    let mut model = heuristic_model();
    let row = row_of(&model, "Leftmost Match Bonus");
    assert_eq!(cell(&model, row, 0), "Leftmost Match Bonus");

    assert_eq!(cell(&model, row, 1), "25");
    assert!(!cell(&model, row, 2).is_empty());
    assert_eq!(cell(&model, row, 3), "25 (On)");
    model.set_cell_text(row, 1, "95");
    assert_eq!(cell(&model, row, 1), "95");
    assert!(model.toggle_row(row));
    assert!(!model.is_row_enabled(row));
    assert!(model.reset_row_to_default(row));
    assert_eq!(cell(&model, row, 1), "25");
    assert!(model.is_row_enabled(row));
}

#[test]
fn heuristic_settings_model_resets_each_independent_fuzzy_rule() {
    let mut model = heuristic_model();

    for (key, default_value) in [("Length Score Weight", "90"), ("Compact Match Bonus", "10")] {
        let row = row_of(&model, key);
        assert_eq!(cell(&model, row, 1), default_value);
        assert_eq!(cell(&model, row, 3), format!("{default_value} (On)"));
        assert!(!cell(&model, row, 2).is_empty());

        model.set_cell_text(row, 1, "999");
        assert!(model.toggle_row(row));
        assert!(!model.is_row_enabled(row));
        assert!(model.reset_row_to_default(row));
        assert_eq!(cell(&model, row, 1), default_value);
        assert!(model.is_row_enabled(row));
    }
}

#[test]
fn folder_score_and_history_adjust_final_rank() {
    let scoring = ScoringConfig::default();
    let plain = test_item("Chrome", "C:\\Apps\\Chrome.exe");
    let mut boosted = test_item("Chrome", "C:\\Preferred\\Chrome.exe");
    boosted.index_score = 50;
    let recent = history_of(&boosted.path, 100);

    let plain_score = ranked_score_with_config("chrome", &plain, &recent, &scoring).unwrap();
    let boosted_score = ranked_score_with_config("chrome", &boosted, &recent, &scoring).unwrap();

    assert!(boosted_score > plain_score);

    let noted = history_of(&recent_item_key(&plain.path), 100);
    let noted_score = ranked_score_with_config("chrome", &plain, &noted, &scoring).unwrap();
    assert_eq!(noted_score, plain_score + 100);
}

#[test]
fn pattern_penalty_keeps_zero_and_negative_results_visible() {
    let item = test_item("Chrome", "C:\\Temp\\Chrome.exe");
    let base_scoring = ScoringConfig {
        pattern_rules: Vec::new(),
        ..Default::default()
    };
    let baseline_score =
        ranked_score_with_config("chrome", &item, &no_history(), &base_scoring).unwrap();

    for (pattern_score, expected_score) in [(-baseline_score, 0), (-baseline_score - 1, -1)] {
        let scoring = ScoringConfig {
            pattern_rules: vec![rule("chrome*", pattern_score)],
            ..Default::default()
        };

        assert_eq!(
            ranked_score_with_config("chrome", &item, &no_history(), &scoring),
            Some(expected_score)
        );
    }

    assert!(ranked_score_with_config("firefox", &item, &no_history(), &base_scoring).is_none());
}

#[test]
fn program_files_aliases_follow_os_architecture_variables() {
    let aliases = path_aliases();
    let named = |name: &str| aliases.iter().find(|alias| alias.name == name).unwrap();
    let program_files = named("%PROGRAMFILES%");
    let program_files_x86 = named("%PROGRAMFILES86%");
    let environment = |values: &[(&str, &str)]| Environment {
        variables: values
            .iter()
            .map(|(key, value)| (key.to_string(), value.to_string()))
            .collect(),
        app_dir: String::new(),
    };
    let x64_values = environment(&[
        ("ProgramW6432", r"D:\Program Files"),
        ("ProgramFiles", r"D:\Program Files (x86)"),
        ("ProgramFiles(x86)", r"D:\Program Files (x86)"),
    ]);

    assert_eq!(
        alias_path_with_env(program_files, &x64_values),
        Some(r"D:\Program Files".to_string())
    );
    assert_eq!(
        alias_path_with_env(program_files_x86, &x64_values),
        Some(r"D:\Program Files (x86)".to_string())
    );

    let x86_values = environment(&[("ProgramFiles", r"E:\Program Files")]);
    assert_eq!(
        alias_path_with_env(program_files, &x86_values),
        Some(r"E:\Program Files".to_string())
    );
    assert_eq!(
        alias_path_with_env(program_files_x86, &x86_values),
        Some(r"E:\Program Files (x86)".to_string())
    );
    assert_eq!(
        expand_path(r"%programfiles%\App", &x86_values),
        r"E:\Program Files\App"
    );
}

#[test]
fn texts_fold_their_letters_and_signs() {
    assert_eq!(fold_text("Đường Ứng DỤNG"), "duong ung dung");
    assert_eq!(fold_text("ÇA"), "ça");
    assert_eq!(searchable_text("  A--b_C\t(日本) "), "a b c 日本");
    assert_eq!(searchable_text("***"), "");
}

#[test]
fn words_begin_behind_what_is_no_letter() {
    assert!(word_boundary_match("my_tool", "tool"));
    assert!(!word_boundary_match("mytool", "tool"));
    assert!(exact_word_match("code tool", "code"));
    assert!(!exact_word_match("codex tool", "code"));
    assert!(acronym_starts_with("visual studio code", "vsc"));
    assert!(!acronym_starts_with("visual studio code", "vc"));
}

#[test]
fn wildcards_match_whole_texts() {
    assert!(wildcard_match("a*b?d", "axxbcd"));
    assert!(!wildcard_match("a*b?d", "axxbd"));
    assert!(wildcard_match("*", ""));
    assert!(!wildcard_match("", "a"));
}

#[test]
fn a_grown_query_fits_no_name_that_the_shorter_one_passed_over() {
    let scoring = ScoringConfig::default();
    let item = test_item("Control Panel.exe", r"C:\Tools\Control Panel.exe");
    for (shorter, longer) in [("con", "cont"), ("control p", "control pan"), ("tools c", "tools con")] {
        assert!(score_item_text_with_config(longer, &item, &scoring).is_some());
        assert!(score_item_text_with_config(shorter, &item, &scoring).is_some());
    }
    assert!(score_item_text_with_config("control z", &item, &scoring).is_none());
    assert!(score_item_text_with_config("control zy", &item, &scoring).is_none());
}
