use flash_launch::shell::{
    accepts_drop_format, explorer_directory_parameters, failed, folder_menu_path, format_hresult,
    hdrop_bytes, icon_cache_key, is_lnk_file, is_old_drag_shortcut, is_shortcut_file,
    launch_uses_default_shell_verb, launch_working_directory, linked_target_folder,
    path_from_wide_buffer, query_continue_drag, sanitize_shortcut_stem,
    shell_execute_error_message, shell_execute_succeeded, shortcut_working_directory,
    unique_shortcut_name, DragStep, CF_HDROP, DVASPECT_CONTENT,
};
use flash_launch::shell_context_menu::{
    context_menu_choice, context_menu_command_offset, is_same_program, rows_to_select,
    should_wait_for_context_menu_command, should_wait_for_shell_window, tray_menu_command,
    MenuChoice, ShellWindowWait, TrayCommand, TrayCommandIds, WaitStep,
};
use flash_launch::wide::{encode_wide, wide};

#[test]
fn linked_folder_is_real_target_folder_not_shortcut_parent() {
    let target_dir = r"C:\TEMP\Dữ liệu thật".to_string();
    let shortcut_dir = r"C:\TEMP\Lối tắt".to_string();
    let target = Some(r"C:\TEMP\Dữ liệu thật\tệp.txt".to_string());
    let linked = linked_target_folder(&target, false, true);
    assert_eq!(linked, Some(target_dir.clone()));
    assert_ne!(linked, Some(shortcut_dir));
    assert_eq!(
        linked_target_folder(&Some(target_dir.clone()), true, false),
        Some(target_dir)
    );
    assert_eq!(linked_target_folder(&target, false, false), None);
    assert_eq!(linked_target_folder(&None, false, false), None);
}

#[test]
fn explorer_directory_parameters_quote_spaces_and_unicode() {
    let parameters = explorer_directory_parameters(r"C:\Dữ liệu\Firefox Portable");
    assert_eq!(parameters, wide(r#""C:\Dữ liệu\Firefox Portable""#));
}

#[test]
fn launch_working_directory_uses_file_parent() {
    assert_eq!(
        launch_working_directory(r"C:\Projects\Tools\launch.bat", false),
        Some(r"C:\Projects\Tools".to_string())
    );
}

#[test]
fn launch_working_directory_uses_directory_itself() {
    let path = r"C:\Projects\Tools";
    assert_eq!(launch_working_directory(path, true), Some(path.to_string()));
}

#[test]
fn launch_working_directory_does_not_override_shortcut() {
    assert_eq!(launch_working_directory(r"C:\Shortcuts\Tool.lnk", false), None);
}

#[test]
fn launch_uses_default_shell_verb_for_lnk_only() {
    assert!(launch_uses_default_shell_verb(
        r"C:\Shortcuts\Control Panel.LNK"
    ));
    assert!(!launch_uses_default_shell_verb(r"C:\Shortcuts\Website.url"));
    assert!(!launch_uses_default_shell_verb(r"C:\Tools\Tool.exe"));
}

#[test]
fn launch_working_directory_preserves_unicode_parent() {
    assert_eq!(
        launch_working_directory(r"C:\Dữ liệu\Ứng dụng\công cụ.exe", false),
        Some(r"C:\Dữ liệu\Ứng dụng".to_string())
    );
}

#[test]
fn launch_working_directory_ignores_parentless_path() {
    assert_eq!(launch_working_directory("launch.bat", false), None);
}

#[test]
fn shell_context_menu_command_ids_use_zero_based_verbs() {
    assert_eq!(context_menu_command_offset(1), Some(0));
    assert_eq!(context_menu_command_offset(17), Some(16));
    assert_eq!(context_menu_command_offset(0), None);
    assert_eq!(context_menu_command_offset(-1), None);
}

#[test]
fn shell_window_waiting_covers_grace_visibility_and_close() {
    assert!(should_wait_for_shell_window(false, false, true));
    assert!(!should_wait_for_shell_window(false, false, false));
    assert!(should_wait_for_shell_window(false, true, false));
    assert!(should_wait_for_shell_window(true, true, false));
    assert!(!should_wait_for_shell_window(true, false, false));
}

#[test]
fn context_menu_waits_only_for_properties_or_unknown_verbs() {
    let verb = |name: &str| Some(name.to_string());
    assert!(should_wait_for_context_menu_command(&verb("properties")));
    assert!(should_wait_for_context_menu_command(&verb("Properties")));
    assert!(should_wait_for_context_menu_command(&None));
    assert!(!should_wait_for_context_menu_command(&verb("open")));
    assert!(!should_wait_for_context_menu_command(&verb("copy")));
}

#[test]
fn waiting_ends_when_the_window_is_gone_or_overdue() {
    let mut wait = ShellWindowWait { observed_window: false };
    assert_eq!(wait.next(false, true, false), WaitStep::Wait);
    assert_eq!(wait.next(true, false, false), WaitStep::Wait);
    assert_eq!(wait.next(true, false, true), WaitStep::TimedOut);
    assert_eq!(wait.next(false, true, false), WaitStep::Finished);
}

#[test]
fn menu_choices_are_told_apart() {
    assert_eq!(context_menu_choice(0), MenuChoice::Nothing);
    assert_eq!(context_menu_choice(3), MenuChoice::Command(2));
    assert_eq!(context_menu_choice(-3), MenuChoice::Invalid);
    let ids = TrayCommandIds {
        show_hide: 10,
        config: 11,
        quit: 12,
    };
    assert_eq!(tray_menu_command(10, &ids), TrayCommand::ShowHide);
    assert_eq!(tray_menu_command(11, &ids), TrayCommand::Config);
    assert_eq!(tray_menu_command(12, &ids), TrayCommand::Quit);
    assert_eq!(tray_menu_command(0, &ids), TrayCommand::Nothing);
    let path = |p: &str| Some(p.to_string());
    assert!(is_same_program(&path(r"C:\App\A.exe"), &path(r"c:\app\a.EXE")));
    assert!(!is_same_program(&path(r"C:\App\A.exe"), &None));
    assert_eq!(rows_to_select(&[4, 1, 9, 2], 4), vec![1, 2]);
}

#[test]
fn shortcuts_are_known_by_their_extension() {
    assert!(is_lnk_file(r"C:\a.LnK"));
    assert!(!is_lnk_file(r"C:\a.url"));
    assert!(is_shortcut_file(r"C:\a.URL"));
    assert!(!is_shortcut_file(r"C:\lnk"));
    assert_eq!(path_from_wide_buffer(&[0, 0x61]), None);
    assert_eq!(path_from_wide_buffer(&[]), None);
    assert_eq!(
        path_from_wide_buffer(&wide(r"C:\tệp")),
        Some(r"C:\tệp".to_string())
    );
    assert_eq!(folder_menu_path(r"C:\a"), r"C:\a\");
    assert_eq!(folder_menu_path("C:/a/"), "C:/a/");
}

#[test]
fn shortcut_names_keep_what_a_file_name_can_hold() {
    assert_eq!(sanitize_shortcut_stem("a<b>: c\t\u{85}d"), "a b c d");
    assert_eq!(sanitize_shortcut_stem("???"), "Shortcut");
    assert_eq!(sanitize_shortcut_stem(&"x".repeat(100)), "x".repeat(80));
    assert_eq!(
        unique_shortcut_name("My/Tool", r"C:\t.exe"),
        "My Tool.lnk"
    );
    assert_eq!(unique_shortcut_name("  ", r"C:\t.exe"), "t.exe.lnk");
    assert_eq!(shortcut_working_directory(r"C:\a\b", true), r"C:\a\b");
    assert_eq!(shortcut_working_directory(r"C:\a\b", false), r"C:\a");
    assert_eq!(shortcut_working_directory(r"C:\", false), "");
    assert!(is_old_drag_shortcut("a.lnk", Some(3_600_000_000_001)));
    assert!(!is_old_drag_shortcut("a.lnk", Some(3_600_000_000_000)));
    assert!(!is_old_drag_shortcut("a.LNK", Some(u128::MAX)));
    assert!(!is_old_drag_shortcut("a.lnk", None));
}

#[test]
fn codes_have_messages() {
    assert!(failed(-1));
    assert!(!failed(0));
    assert_eq!(
        format_hresult("DoDragDrop", -2147024809),
        "DoDragDrop failed: 0x80070057"
    );
    assert_eq!(format_hresult("X", 10), "X failed: 0x0000000A");
    assert!(shell_execute_succeeded(33));
    assert!(!shell_execute_succeeded(32));
    assert_eq!(
        shell_execute_error_message(5, &None),
        "Access denied. ShellExecute code: 5."
    );
    assert_eq!(
        shell_execute_error_message(31, &Some(r"C:\a.xyz".to_string())),
        "No application is associated with this file type. ShellExecute code: 31. File extension: .xyz."
    );
    assert_eq!(
        shell_execute_error_message(-7, &Some("plain".to_string())),
        "Windows ShellExecute failed. ShellExecute code: -7."
    );
}

#[test]
fn icons_are_shared_by_extension() {
    assert_eq!(icon_cache_key(r"C:\Folder", true), "dir");
    assert_eq!(icon_cache_key(r"C:\A.TXT", false), "ext:txt");
    assert_eq!(icon_cache_key(r"C:\A.Exe", false), r"path:c:\a.exe");
    assert_eq!(icon_cache_key(r"C:\Plain", false), r"path:c:\plain");
}

#[test]
fn drags_carry_one_file() {
    assert_eq!(query_continue_drag(true, true), DragStep::Cancel);
    assert_eq!(query_continue_drag(false, false), DragStep::Drop);
    assert_eq!(query_continue_drag(false, true), DragStep::Continue);
    assert!(accepts_drop_format(CF_HDROP, DVASPECT_CONTENT, 5));
    assert!(!accepts_drop_format(CF_HDROP, DVASPECT_CONTENT, 4));
    assert!(!accepts_drop_format(1, DVASPECT_CONTENT, 1));
    assert!(!accepts_drop_format(CF_HDROP, 2, 1));
    let bytes = hdrop_bytes(&encode_wide("ab"));
    assert_eq!(bytes.len(), 28);
    assert_eq!(&bytes[..4], &[20, 0, 0, 0]);
    assert_eq!(&bytes[16..], &[1, 0, 0, 0, 0x61, 0, 0x62, 0, 0, 0, 0, 0]);
}
