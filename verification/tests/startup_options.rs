use flash_launch::search_worker::{SearchThreadMode, ThreadBounds};
use flash_launch::settings_model::SettingsPage;
use flash_launch::startup_options::{
    parse_search_threads, parse_startup_options, refinement_benchmark_sentinel,
    settings_page_from_nav_index, StartupOptions,
};

const PAGES: [SettingsPage; 3] = [
    SettingsPage::General,
    SettingsPage::SearchFolders,
    SettingsPage::HeuristicScoring,
];

fn bounds() -> ThreadBounds {
    ThreadBounds::new(Some(32), 4, 1, 8)
}

fn parse(arguments: &[&str]) -> StartupOptions {
    let arguments = arguments.iter().map(|a| a.to_string()).collect::<Vec<_>>();
    parse_startup_options(&arguments, &bounds(), &PAGES, true)
}

fn parse_without_tools(arguments: &[&str]) -> StartupOptions {
    let arguments = arguments.iter().map(|a| a.to_string()).collect::<Vec<_>>();
    parse_startup_options(&arguments, &bounds(), &PAGES, false)
}

#[test]
fn parses_startup_visibility_options() {
    assert_eq!(parse(&[]), StartupOptions::default());

    let show = parse(&["--show"]);
    assert!(show.show_main);
    assert!(!show.hide_existing);

    let hidden = parse(&["/hidden"]);
    assert!(!hidden.show_main);
    assert!(hidden.hide_existing);

    let settings = parse(&["/settings"]);
    assert!(settings.open_settings);

    let settings_page = parse(&["--settings", "--settings-page", "3"]);
    assert!(settings_page.open_settings);
    assert_eq!(
        settings_page.settings_page,
        Some(SettingsPage::PatternScoring)
    );
}

#[test]
fn parses_debug_startup_options() {
    let debug = parse(&[
        "--debug-search",
        "note",
        "--debug-limit",
        "12",
        "--debug-output",
        "TEMP\\debug-note.txt",
    ]);
    assert_eq!(debug.debug_search.as_deref(), Some("note"));
    assert_eq!(debug.debug_limit, 12);
    assert_eq!(debug.debug_output.as_deref(), Some("TEMP\\debug-note.txt"));

    let refinement = parse(&["--bench-refinement"]);
    assert_eq!(
        refinement.bench_search.as_deref(),
        Some(refinement_benchmark_sentinel())
    );

    let bench = parse(&["--bench-search", "tnt", "--threads", "20", "--runs", "5"]);
    assert_eq!(bench.bench_search.as_deref(), Some("tnt"));
    assert_eq!(bench.bench_threads, 20);
    assert_eq!(bench.bench_runs, 5);
}

#[test]
fn switches_ignore_case_and_bad_numbers() {
    let options = parse(&["--SETTINGS-General", "--debug-limit", "many", "/HIDE", "--show"]);
    assert!(options.open_settings);
    assert_eq!(options.settings_page, Some(SettingsPage::General));
    assert_eq!(options.debug_limit, 0);
    assert!(options.show_main);
    assert!(!options.hide_existing);
    assert_eq!(parse(&["--settings-page"]).settings_page, None);
    assert!(parse(&["--settings-page", "x"]).open_settings);
    assert_eq!(
        parse(&["--settings-page", "-2"]).settings_page,
        Some(SettingsPage::General)
    );
}

#[test]
fn thread_settings_stay_within_bounds() {
    let bounds = bounds();
    assert_eq!(SearchThreadMode::Auto.resolve(&bounds), 8);
    assert_eq!(SearchThreadMode::Manual(0).resolve(&bounds), 1);
    assert_eq!(SearchThreadMode::Manual(99).resolve(&bounds), 32);
    assert_eq!(SearchThreadMode::Maximum.resolve(&bounds), 32);
    assert_eq!(SearchThreadMode::Auto.setting_value(&bounds), "auto");
    assert_eq!(SearchThreadMode::Manual(99).setting_value(&bounds), "32");
    assert_eq!(SearchThreadMode::Maximum.setting_value(&bounds), "max");
    assert_eq!(SearchThreadMode::Auto.manual_value(&bounds), 8);
    assert_eq!(bounds.pool_size(0), 1);
    assert_eq!(ThreadBounds::new(None, 4, 1, 8).available, 4);
    assert_eq!(ThreadBounds::new(Some(0), 4, 1, 8).available, 1);
    for mode in [
        SearchThreadMode::Auto,
        SearchThreadMode::Manual(5),
        SearchThreadMode::Maximum,
    ] {
        assert_eq!(parse_search_threads(&mode.setting_value(&bounds)), mode);
    }
}

#[test]
fn places_of_the_navigation_stand_for_pages() {
    assert_eq!(settings_page_from_nav_index(1, &PAGES), SettingsPage::SearchFolders);
    assert_eq!(settings_page_from_nav_index(3, &PAGES), SettingsPage::PatternScoring);
    assert_eq!(settings_page_from_nav_index(3, &[]), SettingsPage::PatternScoring);
    assert_eq!(settings_page_from_nav_index(7, &PAGES), SettingsPage::General);
    assert_eq!(settings_page_from_nav_index(-1, &PAGES), SettingsPage::General);
}

#[test]
fn switches_of_the_debug_tools_need_the_debug_tools() {
    let options = parse_without_tools(&["--debug-search", "--hidden", "--runs", "5"]);
    assert_eq!(options.debug_search, None);
    assert_eq!(options.bench_runs, 0);
    assert!(options.hide_existing);
    let options = parse(&["--debug-search", "--hidden"]);
    assert_eq!(options.debug_search.as_deref(), Some("--hidden"));
    assert!(!options.hide_existing);
}

#[test]
fn the_last_visibility_switch_decides() {
    for before in [&["--show"][..], &["--settings-page"], &["/hide", "--settings-page", "2"], &[]] {
        let plain = parse_without_tools(before);
        let hidden = parse_without_tools(&[before, &["--HIDDEN"]].concat());
        assert!(!hidden.show_main && hidden.hide_existing);
        assert_eq!(hidden.settings_page, plain.settings_page);
        assert_eq!(hidden.open_settings, plain.open_settings);
        let shown = parse_without_tools(&[before, &["/show"]].concat());
        assert!(shown.show_main && !shown.hide_existing);
    }
}
