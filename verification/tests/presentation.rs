use flash_launch::explanation::special_score_explanation;
use flash_launch::presentation::{
    colorref, explanation_to_show, fitted_list_view_column_widths, hiword, layout_help_content,
    layout_score_breakdown, loword, make_lparam, ranking_kind_text, result_detail_text,
    result_list_display_text, result_score_breakdown_tooltip_text_for_setting, result_score_label,
    result_target_text, score_explanation_text, score_header_text, signed_hiword, signed_loword, Area,
};
use flash_launch::results::{LaunchTarget, SearchResult};
use flash_launch::settings_model::{
    decode_cell_style, default_cell_style, encode_cell_styles, folded_text_changed, page_columns,
    status_message, text_changed, CellStyle, ColumnDef, ColumnText, PluginAliasConfigEntry,
    PluginAliasModel, QueryLaunchRulesModel, SearchFoldersModel, SettingsPage,
};
use flash_launch::shell_context_menu::{
    is_same_program, rows_to_select, tray_menu_command, TrayCommand, TrayCommandIds,
};
use flash_launch::aliases::Environment;
use flash_launch::keys::search_bar_help_text;
use flash_launch::query_rules::QueryLaunchRule;
use flash_launch::title::{format_title_timestamp, LocalTime};
use flash_launch::types::{IndexRoot, ResultRankingKind};
use flash_launch::wide::{copy_wide_fixed, decode_wide, encode_wide, text_before_zero, wide};
use flash_launch::wording::{fill, replace_all, Phrase, Wording};

fn row(detail: &str) -> SearchResult {
    SearchResult {
        title: "Tool".to_string(),
        subtitle: r"C:\Tools".to_string(),
        target: LaunchTarget::Path(r"C:\Tools\Tool.lnk".to_string()),
        is_dir: false,
        from_history: false,
        from_query_launch_rule: false,
        ranking_kind: ResultRankingKind::Heuristic,
        explanation: None,
        display_score: 42,
        score_detail: detail.to_string(),
        score: 42,
    }
}

#[test]
fn rows_show_their_scores() {
    let plain = row("text 40 + path 2 = 42");
    assert_eq!(
        result_list_display_text(0, &plain, false),
        r" 1.  Tool    -    C:\Tools    [score 42]"
    );
    assert_eq!(result_detail_text(&plain, false), r"C:\Tools - score 42");
    assert_eq!(
        result_score_breakdown_tooltip_text_for_setting(&plain, true),
        Some("text 40 + path 2 = 42".to_string())
    );
    assert_eq!(
        result_score_breakdown_tooltip_text_for_setting(&plain, false),
        None
    );
    let recent = row("recent order");
    assert_eq!(
        result_list_display_text(9, &recent, true),
        r"10.  Tool    -    C:\Tools"
    );
    let mut starred = row("starred");
    starred.from_query_launch_rule = true;
    assert_eq!(result_score_label(&starred), "*");
}

#[test]
fn targets_follow_shortcuts() {
    let plain = row("");
    assert_eq!(
        result_target_text(&plain, &Some(r"D:\Real\Tool.exe".to_string())),
        Some(r"D:\Real\Tool.exe".to_string())
    );
    assert_eq!(
        result_target_text(&plain, &None),
        Some(r"C:\Tools\Tool.lnk".to_string())
    );
}

#[test]
fn explanations_have_headers() {
    let explanation = special_score_explanation(
        ResultRankingKind::Plugin,
        "",
        "",
        3,
        &Wording::source(),
    );
    let header = score_header_text(&explanation, &Wording::source());
    assert!(header.starts_with(&explanation.summary));
    assert!(header.contains("\r\nQuery: (blank)\r\nItem: N/A\r\n"));
    assert!(header.ends_with("Relative depth: 0    Final score: 3"));
    assert_ne!(
        ranking_kind_text(ResultRankingKind::Plugin, &Wording::source()),
        ranking_kind_text(ResultRankingKind::Heuristic, &Wording::source())
    );
    let shown = explanation_to_show(&row("x"), "q", &None, Some(explanation), &Wording::source());
    assert_eq!(shown.final_score, 3);
}

#[test]
fn windows_are_laid_out() {
    let layout = layout_score_breakdown(640, 480);
    assert_eq!(layout.close, Area { x: 532, y: 438, width: 96, height: 30 });
    assert_eq!(layout.copy, Area { x: 424, y: 438, width: 96, height: 30 });
    assert_eq!(layout.list, Area { x: 12, y: 116, width: 616, height: 310 });
    let small = layout_score_breakdown(0, 0);
    assert_eq!(small.list.height, 80);
    assert_eq!(
        layout_help_content(100, 20),
        Area { x: 15, y: 44, width: 70, height: 0 }
    );
    assert_eq!(
        fitted_list_view_column_widths(&[10, 100, 70], Some(404)),
        vec![60, 100, 240]
    );
    assert_eq!(
        fitted_list_view_column_widths(&[10, 100, 70], Some(50)),
        vec![60, 100, 70]
    );
    assert_eq!(fitted_list_view_column_widths(&[], Some(50)), Vec::<i32>::new());
}

#[test]
fn numbers_are_packed_and_unpacked() {
    assert_eq!(colorref(1, 2, 3), 0x0003_0201);
    let packed = make_lparam(-2, 7) as usize;
    assert_eq!(signed_loword(packed), -2);
    assert_eq!(signed_hiword(packed), 7);
    assert_eq!(loword(packed), 0xfffe);
    assert_eq!(hiword(packed), 7);
}

#[test]
fn styles_are_packed_and_unpacked() {
    let styles = [
        CellStyle::ModifiedEditable,
        CellStyle::Normal,
        CellStyle::ReadonlyDefault,
    ];
    let packed = encode_cell_styles(&styles);
    assert_eq!(packed, 2 + 16);
    for (column, style) in styles.iter().enumerate() {
        assert_eq!(decode_cell_style(packed, column), *style);
    }
    assert_eq!(decode_cell_style(packed, 5), CellStyle::Normal);
    let columns = [
        ColumnDef::normal("Path", 100, true),
        ColumnDef::default_value("Default", 80),
    ];
    assert_eq!(default_cell_style(&columns, 0), CellStyle::Normal);
    assert_eq!(default_cell_style(&columns, 1), CellStyle::ReadonlyDefault);
}

#[test]
fn pages_have_their_columns() {
    let texts: Vec<ColumnText> = (0..5)
        .map(|index| ColumnText {
            header: format!("H{index}"),
            width: 50,
        })
        .collect();
    let columns = page_columns(SettingsPage::HeuristicScoring, &texts);
    assert_eq!(columns.len(), 4);
    assert!(!columns[0].editable);
    assert!(columns[1].editable);
    assert_eq!(columns[3], ColumnDef::default_value("H3", 50));
    assert!(page_columns(SettingsPage::General, &texts).is_empty());
}

#[test]
fn changes_are_seen() {
    assert!(text_changed("a", "b"));
    assert!(!text_changed(" a ", "a"));
    assert!(!folded_text_changed(" Calc", "cALC"));
    assert!(folded_text_changed("Đ", "d"));
    assert_eq!(
        status_message(&Wording::source(), "Rule deleted"),
        "Rule deleted. Click Save + Apply to persist."
    );
}

#[test]
fn folders_are_edited_and_reset() {
    let environment = Environment {
        variables: Vec::new(),
        app_dir: String::new(),
    };
    let root = |raw: &str, score: i32| IndexRoot {
        raw: raw.to_string(),
        path: Some(raw.to_string()),
        enabled: true,
        score,
        max_depth: 2,
        label: String::new(),
        keywords: Vec::new(),
    };
    let mut model = SearchFoldersModel {
        roots: vec![root(r"C:\A", 10), root(r"C:\B", 20)],
        defaults: vec![root(r"c:\a", 10)],
    };
    model.set_cell_text(0, 2, "77", None, &environment);
    model.set_cell_text(0, 3, "-1", None, &environment);
    model.set_cell_text(0, 1, "Work", None, &environment);
    model.set_cell_text(0, 2, "many", None, &environment);
    assert_eq!(model.cell_text(0, 2), "77");
    assert_eq!(model.cell_text(0, 3), "-1");
    assert_eq!(model.cell_text(0, 1), "work");
    model.set_cell_text(1, 4, "30|3", Some(root(r"C:\B", 30)), &environment);
    assert_eq!(model.cell_text(1, 2), "30");
    model.set_cell_text(1, 4, "nothing", None, &environment);
    assert_eq!(model.cell_text(1, 2), "30");
    assert!(model.toggle_row(0));
    assert!(!model.is_row_enabled(0));
    assert!(model.reset_row_to_default(0, &environment));
    assert_eq!(model.cell_text(0, 2), "10");
    assert!(model.is_row_enabled(0));
    assert!(model.swap_rows(0, 1));
    assert_eq!(model.cell_text(0, 0), r"C:\B");
    assert!(!model.swap_rows(0, 9));
}

#[test]
fn the_tray_is_asked_by_numbers() {
    let ids = TrayCommandIds {
        show_hide: 1,
        config: 2,
        quit: 3,
    };
    assert_eq!(tray_menu_command(2, &ids), TrayCommand::Config);
    assert_eq!(tray_menu_command(9, &ids), TrayCommand::Nothing);
    let own = Some(r"C:\App\Flash.EXE".to_string());
    assert!(is_same_program(&own, &Some(r"c:\app\flash.exe".to_string())));
    assert!(!is_same_program(&own, &None));
    assert_eq!(rows_to_select(&[4, 1, 9], 5), vec![4, 1]);
}

#[test]
fn wide_texts_go_both_ways() {
    let text = "Ứng 😀";
    assert_eq!(encode_wide(text), text.encode_utf16().collect::<Vec<u16>>());
    assert_eq!(decode_wide(&encode_wide(text)), text);
    assert_eq!(decode_wide(&[0x41, 0xd800, 0x42]), "A\u{fffd}B");
    assert_eq!(wide("a"), vec![0x61, 0]);
    assert_eq!(text_before_zero(&[0x61, 0, 0x62]), "a");
    let mut target = vec![9u16; 3];
    copy_wide_fixed(&mut target, "abcd");
    assert_eq!(target, vec![0x61, 0x62, 0]);
}

#[test]
fn rows_have_their_cells_and_styles() {
    let mut model = PluginAliasModel {
        entries: vec![PluginAliasConfigEntry {
            id: "calculator".to_string(),
            name: "Calculator".to_string(),
            alias: "/c".to_string(),
            default_alias: "/c".to_string(),
        }],
    };
    let texts: Vec<ColumnText> = (0..3)
        .map(|index| ColumnText {
            header: format!("H{index}"),
            width: 50,
        })
        .collect();
    let columns = page_columns(SettingsPage::PluginAliases, &texts);
    assert_eq!(model.row_cells(0, 3), vec!["Calculator", "/c", "/c"]);
    assert_eq!(model.row_style_param(0, &columns), 1 + 16);
    model.set_cell_text(0, 1, "/calc");
    assert_eq!(model.entries[0].id, "calculator");
    assert_eq!(model.row_cells(0, 3), vec!["Calculator", "/calc", "/c"]);
    assert_eq!(model.row_style_param(0, &columns), 1 + 8 + 16);
    assert_eq!(model.row_cells(4, 2), vec!["", ""]);
    let rules = QueryLaunchRulesModel {
        items: vec![QueryLaunchRule {
            query: "note".to_string(),
            target: "Pad".to_string(),
        }],
    };
    let columns = page_columns(SettingsPage::QueryLaunchRules, &texts);
    assert_eq!(rules.row_cells(0, 2), vec!["note", "Pad"]);
    assert_eq!(rules.row_style_param(0, &columns), 1 + 4);
}

#[test]
fn things_are_said_in_a_language() {
    let phrase = |source: &str, said: &str| Phrase {
        source: source.to_string(),
        said: said.to_string(),
    };
    let german = Wording {
        phrases: vec![
            phrase("Plugin", "Erweiterung"),
            phrase("N/A", "k. A."),
            phrase("Query: {}", "Anfrage: {}"),
            phrase("{}. {}", "{} -- {}"),
            phrase("Wednesday", "Mittwoch"),
            phrase("July", "Juli"),
            phrase(
                "{weekday} {month} {day}, {year} - {hour}:{minute} {meridiem}",
                "{weekday}, {day}. {month} {year}, {hour}:{minute} {meridiem}",
            ),
            phrase("Input", "Eingabe"),
        ],
    };
    let explanation = special_score_explanation(
        ResultRankingKind::Plugin,
        "rechne",
        "",
        3,
        &Wording::source(),
    );
    let text = score_explanation_text(&explanation, &german);
    assert!(text.starts_with("Ranking: Erweiterung\r\nAnfrage: rechne\r\n"));
    assert!(text.contains("Search Folder root: k. A."));
    assert_eq!(
        status_message(&german, "Rule deleted"),
        "Rule deleted -- Click Save + Apply to persist."
    );
    let time = LocalTime {
        year: 2026,
        month: 7,
        day_of_week: 3,
        day: 1,
        hour: 0,
        minute: 5,
    };
    assert_eq!(format_title_timestamp(&time, &german), "Mittwoch, 01. Juli 2026, 12:05 AM");
    assert_eq!(
        format_title_timestamp(&time, &Wording::source()),
        "Wednesday July 01, 2026 - 12:05 AM"
    );
    assert!(search_bar_help_text(&None, "", &german).starts_with("Eingabe  "));
}

#[test]
fn templates_are_filled_from_the_left() {
    let values = vec!["{}".to_string(), "b".to_string()];
    assert_eq!(fill("{} and {} and {}", &values), "{} and b and {}");
    assert_eq!(fill("none", &values), "none");
    assert_eq!(replace_all("aaab", "aa", "x"), "xab");
    assert_eq!(replace_all("abc", "", "x"), "abc");
    assert_eq!(replace_all("abc", "abcd", "x"), "abc");
}
