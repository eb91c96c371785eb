use flash_launch::aliases::Environment;
use flash_launch::index_roots::{
    depth_display, escape_index_root_field, index_root_line, merge_index_roots_text,
    normalize_keywords, normalize_search_depth, parse_index_root_line, read_index_roots,
    split_index_root_line, SEARCH_DEPTH_ALL,
};
use flash_launch::keyset::KeySet;
use flash_launch::query::{looks_like_directory_query, parse_search_query};
use flash_launch::query_rules::{
    parse_query_launch_rule, query_launch_rules_to_text, read_query_launch_rules,
    upsert_query_launch_rule, QueryLaunchRule,
};
use flash_launch::recents::{
    first_of_each, recent_config_entry_line, recent_items_to_text, record_recent_item,
    remove_recent_item, split_recent_entry,
};
use flash_launch::scoring_text::{
    format_scoring_rule_line, parse_scoring_rule_entries, ScoringRuleEntry, ScoringRuleKind,
};
use flash_launch::text::split_lines;
use flash_launch::types::{IndexRoot, SearchQueryMode};
use flash_launch::winpath::{
    file_name_of, join_paths, lexical_path, parent_of, relative_path,
};

fn environment() -> Environment {
    Environment {
        variables: vec![("USERPROFILE".to_string(), r"C:\Users\An".to_string())],
        app_dir: r"C:\App".to_string(),
    }
}

fn folder(raw: &str, enabled: bool, score: i32, max_depth: usize, keywords: &[&str]) -> IndexRoot {
    IndexRoot {
        raw: raw.to_string(),
        path: None,
        enabled,
        score,
        max_depth,
        label: String::new(),
        keywords: keywords.iter().map(|word| word.to_string()).collect(),
    }
}

#[test]
fn folders_are_read_back_from_their_lines() {
    for root in [
        folder(r"C:\A|B\\C", true, -7, 3, &[]),
        folder("%desktop%", false, 250, SEARCH_DEPTH_ALL, &["work", "[blank]"]),
        folder(r"D:\Ứng dụng", true, i32::MAX, 0, &["ung"]),
    ] {
        let line = index_root_line(&root);
        let found = parse_index_root_line(&line, &environment(), 9).unwrap();
        assert_eq!(found.raw, root.raw);
        assert_eq!(found.enabled, root.enabled);
        assert_eq!(found.score, root.score);
        assert_eq!(found.max_depth, root.max_depth);
        assert_eq!(found.keywords, root.keywords);
        assert!(found.path.is_some());
    }
}

#[test]
fn folder_lines_have_their_form() {
    let root = folder(r"C:\A", true, 5, SEARCH_DEPTH_ALL, &["x", "y"]);
    assert_eq!(
        index_root_line(&root),
        "C:\\\\A | enabled=1 | score=5 | depth=-1 | keywords=x,y"
    );
    assert_eq!(escape_index_root_field(r"a|b\"), r"a\|b\\");
    assert_eq!(split_index_root_line(r"a\|b | c "), vec!["a|b", "c"]);
    assert!(parse_index_root_line("  # note", &environment(), 1).is_none());
    assert!(parse_index_root_line("\"\" | score=1", &environment(), 1).is_none());
    let plain = parse_index_root_line("C:/x | score=no", &environment(), 4).unwrap();
    assert_eq!(plain.score, 100);
    assert_eq!(plain.max_depth, 4);
    assert!(plain.enabled);
}

#[test]
fn only_complete_folder_lines_are_read() {
    let text = "C:\\\\A | enabled=1 | score=2 | depth=0\nC:\\\\B | enabled=1\n# C\n";
    let found = read_index_roots(text, &environment(), 1);
    assert_eq!(found.len(), 1);
    assert_eq!(found[0].raw, r"C:\A");
    let merged = merge_index_roots_text(text, &[], &environment(), 1);
    assert_eq!(merged, "C:\\\\B | enabled=1\n# C\n");
}

#[test]
fn depths_and_keywords_are_normalized() {
    assert_eq!(normalize_search_depth(-3), SEARCH_DEPTH_ALL);
    assert_eq!(normalize_search_depth(3), 3);
    assert_eq!(depth_display(SEARCH_DEPTH_ALL), "-1");
    assert_eq!(depth_display(12), "12");
    assert_eq!(
        normalize_keywords("+Work, work;ĐÊM| +x"),
        vec!["work", "dem", "x"]
    );
}

fn rule(query: &str, target: &str) -> QueryLaunchRule {
    QueryLaunchRule {
        query: query.to_string(),
        target: target.to_string(),
    }
}

#[test]
fn rules_are_read_back_from_their_text() {
    let rules = vec![rule("calc", r"C:\calc.exe"), rule("b c", "D:/b c")];
    let text = query_launch_rules_to_text(&rules);
    assert_eq!(text, "calc\tC:\\calc.exe\nb c\tD:/b c\n");
    assert_eq!(read_query_launch_rules(&text, 10), rules);
    assert_eq!(read_query_launch_rules(&text, 1).len(), 1);
    assert_eq!(
        read_query_launch_rules("A\tx\na\ty\nno tab\n \tz\n", 10),
        vec![rule("A", "x")]
    );
    assert_eq!(parse_query_launch_rule(" q \t t "), Some(rule("q", "t")));
    assert_eq!(parse_query_launch_rule("q t"), None);
}

#[test]
fn the_latest_rule_for_a_query_comes_first() {
    let mut rules = vec![rule("a", "1"), rule("b", "2")];
    upsert_query_launch_rule(&mut rules, "B", "3", 2);
    assert_eq!(rules, vec![rule("B", "3"), rule("a", "1")]);
    upsert_query_launch_rule(&mut rules, "c", "4", 2);
    assert_eq!(rules, vec![rule("c", "4"), rule("B", "3")]);
}

#[test]
fn items_launched_before_are_read_back_from_their_lines() {
    for enabled in [true, false] {
        let line = recent_config_entry_line(enabled, "12.500", r"C:\a b\c.exe");
        let parts = split_recent_entry(&line).unwrap();
        assert_eq!(parts.enabled, enabled);
        assert_eq!(parts.score, "12.500");
        assert_eq!(parts.path, r"C:\a b\c.exe");
    }
    assert!(split_recent_entry("# 1>>>x").is_none());
    assert!(split_recent_entry("1>>>  ").is_none());
    let items = vec!["1>>>a".to_string(), "2>>>b".to_string()];
    let text = recent_items_to_text(&items);
    assert_eq!(text, "1>>>a\n2>>>b\n");
    assert_eq!(split_lines(&text), items);
    assert_eq!(recent_items_to_text(&[]), "");
}

#[test]
fn launched_items_are_noted_once_and_first() {
    let keys: Vec<String> = ["a", "b", "a", "c"].iter().map(|k| k.to_string()).collect();
    assert_eq!(first_of_each(&keys, 10), vec![0, 1, 3]);
    assert_eq!(first_of_each(&keys, 2), vec![0, 1]);
    let items = vec!["1>>>a".to_string(), "1>>>b".to_string()];
    let known = vec![Some("a".to_string()), Some("b".to_string())];
    assert_eq!(remove_recent_item(&items, &known, "a"), vec!["1>>>b"]);
    assert_eq!(
        record_recent_item(&items, &known, "b", "2>>>b".to_string(), 2),
        vec!["2>>>b", "1>>>a"]
    );
}

#[test]
fn scoring_rules_are_read_back_from_their_lines() {
    let entry = |kind, key: &str, value: &str, modifiers: &[&str], enabled| ScoringRuleEntry {
        kind,
        key: key.to_string(),
        value: value.to_string(),
        modifiers: modifiers.iter().map(|word| word.to_string()).collect(),
        enabled,
    };
    let heuristic = entry(ScoringRuleKind::Heuristic, "Exact Match Bonus", "-5", &[], false);
    let pattern = entry(ScoringRuleKind::Pattern, "*.e=xe", "7", &["a", "b"], false);
    let plain = entry(ScoringRuleKind::Pattern, "[ab]*", "+7", &[], true);
    let text = format!(
        "[HeuristicScoring]\n{}\n[PatternScoring]\n{}\n{}\n",
        format_scoring_rule_line(&heuristic),
        format_scoring_rule_line(&pattern),
        format_scoring_rule_line(&plain),
    );
    assert_eq!(
        text,
        "[HeuristicScoring]\nExact Match Bonus<<<-5\n[PatternScoring]\n*.e=xe<<<7 | modifiers=a,b\n[ab]*=+7\n"
    );
    assert_eq!(
        parse_scoring_rule_entries(&text),
        vec![heuristic, pattern, plain]
    );
}

#[test]
fn queries_are_taken_apart() {
    let spec = parse_search_query(" Tool +Work  ++ ", 5, &environment(), false, false);
    assert_eq!(spec.mode, SearchQueryMode::NormalSearch);
    assert_eq!(spec.scoring_time_unix_seconds, 5);
    assert!(spec.folded_search_text.contains("tool"));
    let blank = parse_search_query("   ", 0, &environment(), false, false);
    assert_eq!(blank.mode, SearchQueryMode::BlankHistory);
    assert!(looks_like_directory_query(r"c:\x"));
    assert!(looks_like_directory_query(r"\\server"));
    assert!(!looks_like_directory_query("tool"));
}

#[test]
fn paths_have_their_parts() {
    assert_eq!(file_name_of(r"C:\A\b.txt"), Some("b.txt".to_string()));
    assert_eq!(parent_of(r"C:\A\b.txt"), Some(r"C:\A".to_string()));
    assert_eq!(parent_of(r"C:\"), None);
    assert_eq!(file_name_of(r"C:\"), None);
}

#[test]
fn keys_are_met_once() {
    let mut keys = KeySet::new();
    assert!(keys.insert("a"));
    assert!(keys.insert("b"));
    assert!(!keys.insert("a"));
    assert!(keys.insert(""));
}

#[test]
fn verbatim_paths_are_taken_apart() {
    assert_eq!(file_name_of(r"\\?\C:/x"), Some("x".to_string()));
    assert_eq!(parent_of(r"\\?\C:/x"), Some(r"\\?\C:/".to_string()));
    assert_eq!(file_name_of(r"\\?\C:\a/b"), Some("a/b".to_string()));
    assert_eq!(file_name_of(r"\\?\C:"), None);
}

#[test]
fn paths_are_joined() {
    assert_eq!(join_paths(r"C:\a", "b/c"), r"C:\a\b/c");
    assert_eq!(join_paths("C:", "a"), "C:a");
    assert_eq!(join_paths(r"C:\a", r"D:\b"), r"D:\b");
    assert_eq!(join_paths(r"C:\a", r"\b"), r"C:\b");
    assert_eq!(join_paths(r"\\?\C:\a", "b/c"), r"\\?\C:\a\b\c");
    assert_eq!(join_paths(r"\\?\C:\a", r"..\.\d"), r"\\?\C:\d");
    assert_eq!(join_paths(r"\\?\C:\", r"..\d"), r"\\?\C:\d");
    assert_eq!(join_paths(r"\\?\C:\a", r"\b"), r"\\?\C:\b");
    assert_eq!(join_paths(r"\\?\C:\a\", ""), r"\\?\C:\a\");
    assert_eq!(join_paths(r"\\?\C:", "a"), r"\\?\C:\a");
}

#[test]
fn paths_are_made_anew() {
    assert_eq!(lexical_path(r"C:\a\.\b\..\c"), r"C:\a\c");
    assert_eq!(lexical_path(r"C:\..\a"), r"C:\a");
    assert_eq!(lexical_path(r"\\?\C:\x/y\.\z"), r"\\?\C:\x\y\z");
    assert_eq!(lexical_path(r"\\?\C:"), r"\\?\C:");
    assert_eq!(lexical_path(r"D:\C:\x"), "C:x");
    assert_eq!(lexical_path("//srv/share/a/../.."), r"//srv/share\");
}

#[test]
fn paths_are_seen_from_others() {
    let seen = |path: &str, base: &str| relative_path(path, base);
    assert_eq!(seen(r"C:\a\b\", r"c:/a"), Some("b".to_string()));
    assert_eq!(seen(r"C:\a", r"C:\a"), Some(String::new()));
    assert_eq!(seen(r"C:\a\b", "C:"), Some(r"\a\b".to_string()));
    assert_eq!(seen(r"C:\a\", ""), Some(r"C:\a".to_string()));
    assert_eq!(seen(r"C:\a", r"C:a"), None);
    assert_eq!(seen(r"\\?\C:\a\b", r"\\?\c:\a"), Some("b".to_string()));
    assert_eq!(seen(r"C:\a\b", r"\\?\C:\a"), None);
    assert_eq!(seen(r"\\?\UNC/s\t\x", r"\\?\UNC\s\t"), Some(r"\x".to_string()));
}
