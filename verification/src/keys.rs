//! What a key does in the launcher, and the text that says so.

use crate::aliases;
use crate::text;
use crate::wording::Wording;
use vstd::prelude::*;

verus! {

/// The key that erases backwards.
pub const KEY_BACK: u16 = 0x08;

/// The return key.
pub const KEY_RETURN: u16 = 0x0d;

/// The escape key.
pub const KEY_ESCAPE: u16 = 0x1b;

/// The space bar.
pub const KEY_SPACE: u16 = 0x20;

/// The page up key.
pub const KEY_PRIOR: u16 = 0x21;

/// The page down key.
pub const KEY_NEXT: u16 = 0x22;

/// The end key.
pub const KEY_END: u16 = 0x23;

/// The home key.
pub const KEY_HOME: u16 = 0x24;

/// The left arrow.
pub const KEY_LEFT: u16 = 0x25;

/// The up arrow.
pub const KEY_UP: u16 = 0x26;

/// The right arrow.
pub const KEY_RIGHT: u16 = 0x27;

/// The down arrow.
pub const KEY_DOWN: u16 = 0x28;

/// The delete key.
pub const KEY_DELETE: u16 = 0x2e;

/// The letter A.
pub const KEY_A: u16 = 0x41;

/// The first function key.
pub const KEY_F1: u16 = 0x70;

/// The key of an input method.
pub const KEY_PROCESS: u16 = 0xe5;

/// The first or the last result.
#[derive(Clone, Copy, Debug, PartialEq, Eq, Structural)]
pub enum ResultBoundaryShortcut {
    First,
    Last,
}

/// The end of the results that a key goes to.
pub fn result_boundary_shortcut(key: u16, control_pressed: bool) -> (r: Option<
    ResultBoundaryShortcut,
>)
    ensures
        r == (if control_pressed && key == KEY_HOME {
            Some(ResultBoundaryShortcut::First)
        } else if control_pressed && key == KEY_END {
            Some(ResultBoundaryShortcut::Last)
        } else {
            None
        }),
        r is Some <==> control_pressed && (key == 0x24 || key == 0x23),
        r is Some ==> (r == Some(ResultBoundaryShortcut::First) <==> key == 0x24),
{
    if !control_pressed {
        return None;
    }
    if key == KEY_HOME {
        Some(ResultBoundaryShortcut::First)
    } else if key == KEY_END {
        Some(ResultBoundaryShortcut::Last)
    } else {
        None
    }
}

/// A key that edits text without standing for a character.
pub open spec fn edits(key: u16) -> bool {
    ||| key == KEY_BACK
    ||| key == KEY_DELETE
    ||| key == KEY_LEFT
    ||| key == KEY_RIGHT
    ||| key == KEY_HOME
    ||| key == KEY_END
    ||| key == KEY_PROCESS
}

/// Whether a key that was pressed elsewhere in the launcher is meant for the search
/// field: one that edits or stands for a character, and no shortcut. The character
/// is the one that the keyboard maps the key to; its highest bit marks a dead key.
pub fn should_route_launcher_key_to_search(
    key: u16,
    control_pressed: bool,
    alt_pressed: bool,
    windows_pressed: bool,
    mapped: u32,
) -> (r: bool)
    ensures
        r == (!control_pressed && !alt_pressed && !windows_pressed && (edits(key) || mapped
            % 0x8000_0000 >= 0x20)),
{
    if control_pressed || alt_pressed || windows_pressed {
        return false;
    }
    if key == KEY_BACK || key == KEY_DELETE || key == KEY_LEFT || key == KEY_RIGHT || key
        == KEY_HOME || key == KEY_END || key == KEY_PROCESS {
        return true;
    }
    mapped % 0x8000_0000 >= 0x20
}

/// A key that went down: where, with which others, and what it stands for.
#[derive(Clone, Copy, Debug, PartialEq, Eq, Structural)]
pub struct KeyEvent {
    /// A key went down, and not as part of a system shortcut.
    pub plain_key_down: bool,
    /// A key went down as part of a system shortcut.
    pub system_key_down: bool,
    pub key: u16,
    /// The field for the hotkey had the focus and took the key.
    pub hotkey_captured: bool,
    pub in_folder_list: bool,
    pub in_rule_list: bool,
    /// The folder list shows the rules for queries.
    pub shows_query_rules: bool,
    /// The launcher or one of its controls has the focus.
    pub in_launcher: bool,
    pub in_search_field: bool,
    pub control_pressed: bool,
    pub alt_pressed: bool,
    pub windows_pressed: bool,
    pub shift_pressed: bool,
    /// What the keyboard maps the key to.
    pub mapped: u32,
}

/// What is to be done.
#[derive(Clone, Copy, Debug, PartialEq, Eq, Structural)]
pub enum KeyAction {
    /// Nothing; the key goes its usual way.
    Pass,
    /// Nothing; the key has been dealt with.
    Swallow,
    ToggleFolder,
    ToggleRule,
    SelectFirst,
    SelectLast,
    SelectText,
    OpenFolder,
    Launch,
    Escape,
    /// Earlier (-1) or later (1) queries; whether the key is dealt with depends on
    /// whether there is one.
    RecallQuery(i32),
    /// The selection moves by one.
    Move(i32),
    /// The selection moves by a page.
    MovePage(i32),
    ToggleShowAll,
    LaunchResult(usize),
    /// The key goes to the search field instead.
    RouteToSearch,
}

/// What a key does outside the launcher.
pub open spec fn settings_action(e: KeyEvent) -> Option<KeyAction> {
    if e.hotkey_captured {
        Some(KeyAction::Swallow)
    } else if e.in_folder_list && e.key == KEY_SPACE {
        Some(
            if e.shows_query_rules {
                KeyAction::Swallow
            } else {
                KeyAction::ToggleFolder
            },
        )
    } else if e.in_rule_list && e.key == KEY_SPACE {
        Some(KeyAction::ToggleRule)
    } else {
        None
    }
}

/// What a key does in the launcher.
pub open spec fn launcher_action(e: KeyEvent) -> KeyAction {
    if e.control_pressed && e.key == KEY_HOME {
        KeyAction::SelectFirst
    } else if e.control_pressed && e.key == KEY_END {
        KeyAction::SelectLast
    } else if e.in_search_field && e.control_pressed && e.key == KEY_A {
        KeyAction::SelectText
    } else if e.key == KEY_RETURN {
        if e.shift_pressed {
            KeyAction::OpenFolder
        } else {
            KeyAction::Launch
        }
    } else if e.key == KEY_ESCAPE {
        KeyAction::Escape
    } else if e.key == KEY_UP || e.key == KEY_DOWN {
        let way: i32 = if e.key == KEY_UP {
            (-1) as i32
        } else {
            1
        };
        if e.in_search_field && e.control_pressed {
            KeyAction::RecallQuery(way)
        } else {
            KeyAction::Move(way)
        }
    } else if e.key == KEY_PRIOR {
        KeyAction::MovePage((-1) as i32)
    } else if e.key == KEY_NEXT {
        if e.control_pressed {
            KeyAction::ToggleShowAll
        } else {
            KeyAction::MovePage(1)
        }
    } else if KEY_F1 <= e.key <= KEY_F1 + 8 {
        KeyAction::LaunchResult((e.key - KEY_F1) as usize)
    } else if e.plain_key_down && !e.in_search_field && !e.control_pressed && !e.alt_pressed
        && !e.windows_pressed && (edits(e.key) || e.mapped % 0x8000_0000 >= 0x20) {
        KeyAction::RouteToSearch
    } else {
        KeyAction::Pass
    }
}

/// What a key does.
pub open spec fn action_for(e: KeyEvent) -> KeyAction {
    if !e.plain_key_down && !e.system_key_down {
        KeyAction::Pass
    } else {
        match settings_action(e) {
            Some(action) => action,
            None => if e.in_launcher {
                launcher_action(e)
            } else {
                KeyAction::Pass
            },
        }
    }
}

/// What a key does.
pub fn handle_key_message(event: &KeyEvent) -> (r: KeyAction)
    ensures
        r == action_for(*event),
{
    if !event.plain_key_down && !event.system_key_down {
        return KeyAction::Pass;
    }
    if event.hotkey_captured {
        return KeyAction::Swallow;
    }
    if event.in_folder_list && event.key == KEY_SPACE {
        return if event.shows_query_rules {
            KeyAction::Swallow
        } else {
            KeyAction::ToggleFolder
        };
    }
    if event.in_rule_list && event.key == KEY_SPACE {
        return KeyAction::ToggleRule;
    }
    if !event.in_launcher {
        return KeyAction::Pass;
    }
    match result_boundary_shortcut(event.key, event.control_pressed) {
        Some(ResultBoundaryShortcut::First) => {
            return KeyAction::SelectFirst;
        },
        Some(ResultBoundaryShortcut::Last) => {
            return KeyAction::SelectLast;
        },
        None => {},
    }
    if event.in_search_field && event.key == KEY_A && event.control_pressed {
        return KeyAction::SelectText;
    }
    let recalls = event.in_search_field && event.control_pressed;
    match event.key {
        KEY_RETURN => if event.shift_pressed {
            KeyAction::OpenFolder
        } else {
            KeyAction::Launch
        },
        KEY_ESCAPE => KeyAction::Escape,
        KEY_UP => if recalls {
            KeyAction::RecallQuery(-1)
        } else {
            KeyAction::Move(-1)
        },
        KEY_DOWN => if recalls {
            KeyAction::RecallQuery(1)
        } else {
            KeyAction::Move(1)
        },
        KEY_PRIOR => KeyAction::MovePage(-1),
        KEY_NEXT => if event.control_pressed {
            KeyAction::ToggleShowAll
        } else {
            KeyAction::MovePage(1)
        },
        key => {
            if KEY_F1 <= key && key <= KEY_F1 + 8 {
                KeyAction::LaunchResult((key - KEY_F1) as usize)
            } else if event.plain_key_down && !event.in_search_field
                && should_route_launcher_key_to_search(
                key,
                event.control_pressed,
                event.alt_pressed,
                event.windows_pressed,
                event.mapped,
            ) {
                KeyAction::RouteToSearch
            } else {
                KeyAction::Pass
            }
        },
    }
}

/// Whether the search field gets the focus with an action.
pub fn focuses_search(action: KeyAction) -> (r: bool)
    ensures
        r == (action is SelectFirst || action is SelectLast || action is Move || action is MovePage
            || action is ToggleShowAll || action is RouteToSearch),
{
    match action {
        KeyAction::SelectFirst => true,
        KeyAction::SelectLast => true,
        KeyAction::Move(_) => true,
        KeyAction::MovePage(_) => true,
        KeyAction::ToggleShowAll => true,
        KeyAction::RouteToSearch => true,
        _ => false,
    }
}

/// A key is dealt with unless it passes or goes to the search field; of a recalled
/// query it is known only once it was looked for.
pub fn is_dealt_with(action: KeyAction, recalled: bool) -> (r: bool)
    ensures
        r == (match action {
            KeyAction::Pass => false,
            KeyAction::RouteToSearch => false,
            KeyAction::RecallQuery(_) => recalled,
            _ => true,
        }),
        r ==> action != KeyAction::Pass && action != KeyAction::RouteToSearch,
        action == KeyAction::Launch || action == KeyAction::Swallow || action is Move ==> r,
{
    match action {
        KeyAction::Pass => false,
        KeyAction::RouteToSearch => false,
        KeyAction::RecallQuery(_) => recalled,
        _ => true,
    }
}

/// With the alt or a windows key down, no key is sent to the search field.
pub proof fn lemma_shortcuts_are_not_text(e: KeyEvent)
    requires
        e.control_pressed || e.alt_pressed || e.windows_pressed,
    ensures
        action_for(e) != KeyAction::RouteToSearch,
{
}

// ---------------------------------------------------------------------------
// Help
// ---------------------------------------------------------------------------

/// So many times a character.
pub open spec fn repeated(c: char, n: nat) -> Seq<char> {
    Seq::new(n, |i: int| c)
}

/// A text, filled up with spaces.
pub open spec fn padded(s: Seq<char>, width: int) -> Seq<char> {
    s + repeated(
        ' ',
        if s.len() < width {
            (width - s.len()) as nat
        } else {
            0
        },
    )
}

fn append_repeated(out: &mut String, c: char, n: usize)
    ensures
        final(out)@ == old(out)@ + repeated(c, n as nat),
{
    let ghost start = out@;
    let mut i: usize = 0;
    while i < n
        invariant
            i <= n,
            out@ == start + repeated(c, i as nat),
        decreases n - i,
    {
        out.push(c);
        i += 1;
        proof {
            assert(out@ =~= start + repeated(c, i as nat));
        }
    }
}

fn pad(s: &str, width: usize) -> (r: String)
    ensures
        r@ == padded(s@, width as int),
{
    let count: usize = text::chars_of(s).len();
    let mut out = s.to_owned();
    append_repeated(
        &mut out,
        ' ',
        if count < width {
            width - count
        } else {
            0
        },
    );
    out
}

/// What can be typed or pressed, and what it does.
pub open spec fn help_rows(calculator: Seq<char>, wording: Wording) -> Seq<(Seq<char>, Seq<char>)> {
    seq![
        ("+sall"@, wording.said("Show all matches."@)),
        ("C:\\Folder\\filter"@, wording.said("Browse a local directory and filter its children."@)),
        ("\\\\server\\share\\filter"@, wording.said("Browse a UNC/network directory."@)),
        ("%MYSTARTMENU%\\chrome"@, wording.said("Browse by using a built-in path alias."@)),
        (calculator + " 2+2"@, wording.said("Calculator plugin: evaluate an expression."@)),
        (calculator, wording.said("Calculator plugin: show calculator history."@)),
        ("Ctrl+Up / Ctrl+Down"@, wording.said("Recall learned queries from Query Launch Rules."@)),
        ("Enter"@, wording.said("Launch the selected or default result."@)),
        (
            "Shift+Enter"@,
            wording.said(
                "Open the selected item's real target folder, not the shortcut folder."@,
            ),
        ),
        ("Esc"@, wording.said("Select the query text, or hide when already selected or empty."@)),
        ("Up / Down"@, wording.said("Move the result selection."@)),
        ("PageUp / PageDown"@, wording.said("Move the result selection by one visible page."@)),
        ("Ctrl+Home / Ctrl+End"@, wording.said("Select the first / last result."@)),
        ("Ctrl+PageDown"@, wording.said("Toggle showing all matches without changing the search text."@)),
        ("F1..F9"@, wording.said("Launch result 1..9 directly."@)),
    ]
}

/// A row of the table.
pub open spec fn help_row(row: (Seq<char>, Seq<char>)) -> Seq<char> {
    padded(row.0, 34) + " | "@ + row.1
}

/// The names of the aliases.
pub open spec fn alias_names() -> Seq<Seq<char>> {
    Seq::new(aliases::alias_table().len(), |i: int| aliases::alias_table()[i].name)
}

/// The lines of the help text.
pub open spec fn help_lines(
    calculator: Seq<char>,
    plugin_help: Seq<char>,
    wording: Wording,
) -> Seq<Seq<char>> {
    let rows = help_rows(calculator, wording);
    seq![
        padded(wording.said("Input"@), 34) + " | "@ + wording.said("Action"@),
        repeated('-', 34) + "-+-"@ + repeated('-', 54),
    ] + Seq::new(rows.len(), |i: int| help_row(rows[i])) + seq![
        ""@,
        wording.said("Path aliases:"@) + " "@ + text::join(alias_names(), ", "@),
        ""@,
        wording.said("Plugin aliases:"@) + " "@ + plugin_help,
    ]
}

/// The alias of the calculator.
pub open spec fn calculator_alias(known: Option<String>) -> Seq<char> {
    match known {
        Some(alias) => alias@,
        None => "/c"@,
    }
}

fn add_line(lines: &mut Vec<String>, line: String)
    ensures
        text::texts(final(lines)@) == text::texts(old(lines)@).push(line@),
{
    let ghost before = lines@;
    let ghost added = line@;
    lines.push(line);
    proof {
        assert(text::texts(lines@) =~= text::texts(before).push(added));
    }
}

fn add_row(lines: &mut Vec<String>, input: &str, note: &str)
    ensures
        text::texts(final(lines)@) == text::texts(old(lines)@).push(help_row((input@, note@))),
{
    let cell = pad(input, 34);
    add_line(lines, text::cat3(cell.as_str(), " | ", note));
}

fn joined_alias_names() -> (r: String)
    ensures
        r@ == text::join(alias_names(), ", "@),
{
    let table = aliases::path_aliases();
    let mut names: Vec<String> = Vec::new();
    let mut i: usize = 0;
    proof {
        assert(aliases::alias_table().len() == table@.len());
        assert(text::texts(names@) =~= alias_names().take(0));
    }
    while i < table.len()
        invariant
            i <= table.len(),
            aliases::alias_models(table@) == aliases::alias_table(),
            aliases::alias_table().len() == table@.len(),
            text::texts(names@) == alias_names().take(i as int),
        decreases table.len() - i,
    {
        proof {
            assert(aliases::alias_table()[i as int] == table@[i as int]@);
        }
        add_line(&mut names, table[i].name.to_owned());
        i += 1;
        proof {
            assert(text::texts(names@) =~= alias_names().take(i as int));
        }
    }
    proof {
        assert(alias_names().take(i as int) =~= alias_names());
    }
    text::join_texts(names.as_slice(), ", ")
}

/// The help text of the search field.
pub fn search_bar_help_text(
    calculator: &Option<String>,
    plugin_help: &str,
    wording: &Wording,
) -> (r: String)
    ensures
        r@ == text::join(
            help_lines(calculator_alias(*calculator), plugin_help@, *wording),
            "\r\n"@,
        ),
{
    let alias: String = match calculator {
        Some(known) => known.clone(),
        None => "/c".to_owned(),
    };
    let mut lines: Vec<String> = Vec::new();
    proof {
        assert(text::texts(lines@) =~= Seq::<Seq<char>>::empty());
    }
    let head = pad(wording.say("Input").as_str(), 34);
    add_line(&mut lines, text::cat3(head.as_str(), " | ", wording.say("Action").as_str()));
    let mut rule = String::new();
    append_repeated(&mut rule, '-', 34);
    rule.append("-+-");
    append_repeated(&mut rule, '-', 54);
    proof {
        assert(rule@ =~= repeated('-', 34) + "-+-"@ + repeated('-', 54));
    }
    add_line(&mut lines, rule);
    let ghost head_lines = text::texts(lines@);
    add_row(
        &mut lines,
        "+sall",
        wording.say("Show all matches.").as_str(),
    );
    add_row(
        &mut lines,
        "C:\\Folder\\filter",
        wording.say("Browse a local directory and filter its children.").as_str(),
    );
    add_row(
        &mut lines,
        "\\\\server\\share\\filter",
        wording.say("Browse a UNC/network directory.").as_str(),
    );
    add_row(
        &mut lines,
        "%MYSTARTMENU%\\chrome",
        wording.say("Browse by using a built-in path alias.").as_str(),
    );
    let example = text::cat2(alias.as_str(), " 2+2");
    add_row(
        &mut lines,
        example.as_str(),
        wording.say("Calculator plugin: evaluate an expression.").as_str(),
    );
    add_row(
        &mut lines,
        alias.as_str(),
        wording.say("Calculator plugin: show calculator history.").as_str(),
    );
    add_row(
        &mut lines,
        "Ctrl+Up / Ctrl+Down",
        wording.say("Recall learned queries from Query Launch Rules.").as_str(),
    );
    add_row(
        &mut lines,
        "Enter",
        wording.say("Launch the selected or default result.").as_str(),
    );
    add_row(
        &mut lines,
        "Shift+Enter",
        wording.say("Open the selected item's real target folder, not the shortcut folder.").as_str(),
    );
    add_row(
        &mut lines,
        "Esc",
        wording.say("Select the query text, or hide when already selected or empty.").as_str(),
    );
    add_row(
        &mut lines,
        "Up / Down",
        wording.say("Move the result selection.").as_str(),
    );
    add_row(
        &mut lines,
        "PageUp / PageDown",
        wording.say("Move the result selection by one visible page.").as_str(),
    );
    add_row(
        &mut lines,
        "Ctrl+Home / Ctrl+End",
        wording.say("Select the first / last result.").as_str(),
    );
    add_row(
        &mut lines,
        "Ctrl+PageDown",
        wording.say("Toggle showing all matches without changing the search text.").as_str(),
    );
    add_row(
        &mut lines,
        "F1..F9",
        wording.say("Launch result 1..9 directly.").as_str(),
    );
    add_line(&mut lines, "".to_owned());
    let names = joined_alias_names();
    add_line(&mut lines, text::cat3(wording.say("Path aliases:").as_str(), " ", names.as_str()));
    add_line(&mut lines, "".to_owned());
    add_line(&mut lines, text::cat3(wording.say("Plugin aliases:").as_str(), " ", plugin_help));
    proof {
        assert(text::texts(lines@) =~= help_lines(
            calculator_alias(*calculator),
            plugin_help@,
            *wording,
        ));
    }
    text::join_texts(lines.as_slice(), "\r\n")
}

// ---------------------------------------------------------------------------
// Selection
// ---------------------------------------------------------------------------

/// The first result that can be seen.
pub fn first_visible_result_index(result_count: usize, visible_limit: usize) -> (r: Option<usize>)
    ensures
        r == (if result_count > 0 && visible_limit > 0 {
            Some(0usize)
        } else {
            None
        }),
{
    if result_count > 0 && visible_limit > 0 {
        Some(0)
    } else {
        None
    }
}

/// The selection after a move among some results: it goes on at the other end.
pub open spec fn moved_selection(current: Option<usize>, count: usize, delta: int) -> Option<int> {
    if count == 0 {
        None
    } else {
        match current {
            Some(index) => Some((index + delta) % count as int),
            None => Some(
                if delta < 0 {
                    count - 1
                } else {
                    0
                },
            ),
        }
    }
}

/// The selection after a move: it goes on at the other end.
pub fn selection_after_move(current: Option<usize>, count: usize, delta: i32) -> (r: Option<usize>)
    requires
        count <= i32::MAX,
        current matches Some(index) ==> index <= i32::MAX && i32::MIN <= index + delta <= i32::MAX,
    ensures
        r == (if count == 0 {
            None
        } else {
            match current {
                Some(index) => Some(((index + delta) % count as int) as usize),
                None => Some(
                    (if delta < 0 {
                        count - 1
                    } else {
                        0
                    }) as usize,
                ),
            }
        }),
        r matches Some(index) ==> index < count,
        moved_selection(current, count, delta as int) == (match r {
            Some(index) => Some(index as int),
            None => None,
        }),
{
    if count == 0 {
        return None;
    }
    match current {
        Some(index) => {
            let moved: i64 = index as i64 + delta as i64;
            let size: i64 = count as i64;
            let left: i64 = if moved >= 0 {
                moved % size
            } else {
                let over: i64 = (-moved) % size;
                proof {
                    vstd::arithmetic::div_mod::lemma_fundamental_div_mod(
                        (-moved) as int,
                        size as int,
                    );
                    let q = (-moved) as int / size as int;
                    assert(size * q == q * size) by (nonlinear_arith);
                    if over == 0 {
                        assert(moved == size * (-q)) by (nonlinear_arith)
                            requires
                                -moved == size * q,
                        ;
                        vstd::arithmetic::div_mod::lemma_fundamental_div_mod_converse(
                            moved as int,
                            size as int,
                            -q,
                            0,
                        );
                    } else {
                        assert(moved == size * (-q - 1) + (size - over)) by (nonlinear_arith)
                            requires
                                -moved == size * q + over,
                        ;
                        vstd::arithmetic::div_mod::lemma_fundamental_div_mod_converse(
                            moved as int,
                            size as int,
                            -q - 1,
                            size - over,
                        );
                    }
                }
                if over == 0 {
                    0
                } else {
                    size - over
                }
            };
            Some(left as usize)
        },
        None => Some(
            if delta < 0 {
                count - 1
            } else {
                0
            },
        ),
    }
}

/// The number of rows that are used.
pub open spec fn rows_used(count: int, visible_rows: int) -> int {
    let rows = if visible_rows < 1 {
        1
    } else {
        visible_rows
    };
    if rows < count {
        rows
    } else {
        count
    }
}

fn used_rows(count: usize, visible_rows: usize) -> (r: usize)
    ensures
        r == rows_used(count as int, visible_rows as int),
{
    let rows: usize = if visible_rows < 1 {
        1
    } else {
        visible_rows
    };
    if rows < count {
        rows
    } else {
        count
    }
}

/// The first row that is shown once a result is selected: the rows move as little as
/// need be for it to be seen.
pub fn top_index_after_select(
    current_top: usize,
    selected: usize,
    count: usize,
    visible_rows: usize,
) -> (r: usize)
    requires
        selected < usize::MAX,
    ensures
        ({
            let rows = rows_used(count as int, visible_rows as int);
            let most = count - rows;
            let top = if current_top < most {
                current_top as int
            } else {
                most
            };
            &&& count == 0 ==> r == 0
            &&& count > 0 ==> r + rows <= count
            &&& count > 0 && selected < count ==> r <= selected < r + rows
            &&& count > 0 && top <= selected < top + rows ==> r == top
            &&& count > 0 && selected < top ==> r == selected
            &&& count > 0 && top + rows <= selected < count ==> r == selected + 1 - rows
            &&& count > 0 && selected >= count ==> r == most
        }),
{
    if count == 0 {
        return 0;
    }
    let rows: usize = used_rows(count, visible_rows);
    let max_top: usize = count - rows;
    let top: usize = if current_top < max_top {
        current_top
    } else {
        max_top
    };
    if selected < top {
        selected
    } else if selected >= top + rows {
        let wanted: usize = selected + 1 - rows;
        if wanted < max_top {
            wanted
        } else {
            max_top
        }
    } else {
        top
    }
}

/// The smaller of two numbers.
pub open spec fn smaller(a: int, b: int) -> int {
    if a < b {
        a
    } else {
        b
    }
}

/// A number less another, but no less than nothing.
pub open spec fn less(a: int, b: int) -> int {
    if a < b {
        0
    } else {
        a - b
    }
}

/// The selection and the first row after a move by a page.
pub open spec fn paged_selection(
    current: Option<usize>,
    current_top: usize,
    count: usize,
    visible_rows: usize,
    forwards: bool,
) -> Option<(int, int)> {
    let rows = rows_used(count as int, visible_rows as int);
    let most = count - rows;
    let top = smaller(current_top as int, most);
    if count == 0 {
        None
    } else {
        match current {
            None => Some(
                if forwards {
                    (0, 0)
                } else {
                    (count - 1, most)
                },
            ),
            Some(index) => {
                let at = smaller(index as int, count - 1);
                Some(
                    if forwards {
                        (smaller(at + rows, count - 1), smaller(top + rows, most))
                    } else {
                        (less(at, rows), less(top, rows))
                    },
                )
            },
        }
    }
}

/// The selection and the first row after a move by a page.
pub fn page_selection_after_move(
    current: Option<usize>,
    current_top: usize,
    count: usize,
    visible_rows: usize,
    direction: i32,
) -> (r: Option<(usize, usize)>)
    ensures
        ({
            let rows = rows_used(count as int, visible_rows as int);
            let most = count - rows;
            let top = smaller(current_top as int, most);
            match current {
                _ if count == 0 => r is None,
                None => r == Some(
                    if direction < 0 {
                        ((count - 1) as usize, most as usize)
                    } else {
                        (0usize, 0usize)
                    },
                ),
                Some(index) => {
                    let at = smaller(index as int, count - 1);
                    r == Some(
                        if direction < 0 {
                            (less(at, rows) as usize, less(top, rows) as usize)
                        } else {
                            (
                                smaller(at + rows, count - 1) as usize,
                                smaller(top + rows, most) as usize,
                            )
                        },
                    )
                },
            }
        }),
        r matches Some((selected, top)) ==> selected < count && top + rows_used(
            count as int,
            visible_rows as int,
        ) <= count,
        paged_selection(current, current_top, count, visible_rows, direction >= 0) == (match r {
            Some((selected, top)) => Some((selected as int, top as int)),
            None => None,
        }),
{
    if count == 0 {
        return None;
    }
    let rows: usize = used_rows(count, visible_rows);
    let max_top: usize = count - rows;
    let top: usize = if current_top < max_top {
        current_top
    } else {
        max_top
    };
    match current {
        None => if direction < 0 {
            Some((count - 1, max_top))
        } else {
            Some((0, 0))
        },
        Some(index) => {
            let at: usize = if index < count - 1 {
                index
            } else {
                count - 1
            };
            if direction < 0 {
                Some((at.saturating_sub(rows), top.saturating_sub(rows)))
            } else {
                let next: usize = if at < count - 1 && rows < count - 1 - at {
                    at + rows
                } else {
                    count - 1
                };
                let next_top: usize = if top < max_top && rows < max_top - top {
                    top + rows
                } else {
                    max_top
                };
                Some((next, next_top))
            }
        },
    }
}

// ---------------------------------------------------------------------------
// What the keys are for
// ---------------------------------------------------------------------------

/// A key of the launcher that is pressed outside the lists of the settings.
pub open spec fn plain_press(e: KeyEvent) -> bool {
    e.in_launcher && (e.plain_key_down || e.system_key_down) && !e.hotkey_captured
        && !e.in_folder_list && !e.in_rule_list
}

/// Return launches, and opens the folder with shift; escape leaves; the function keys launch
/// the results by their number, up to nine.
pub proof fn lemma_keys_that_launch(e: KeyEvent)
    requires
        plain_press(e),
    ensures
        action_for(e) == KeyAction::Launch <==> e.key == 0x0d && !e.shift_pressed,
        action_for(e) == KeyAction::OpenFolder <==> e.key == 0x0d && e.shift_pressed,
        action_for(e) == KeyAction::Escape <==> e.key == 0x1b,
        action_for(e) is LaunchResult <==> 0x70 <= e.key <= 0x78,
        action_for(e) matches KeyAction::LaunchResult(n) ==> n < 9 && n == e.key - 0x70,
{
}

/// The arrows move the selection by one, down or up, and recall queries in the search field
/// with control; home and end go to the ends with control; the page keys move by a page, but
/// with control page down shows all.
pub proof fn lemma_keys_that_move(e: KeyEvent)
    requires
        plain_press(e),
    ensures
        e.key == 0x26 || e.key == 0x28 ==> ({
            let way: i32 = if e.key == 0x28 {
                1
            } else {
                (-1) as i32
            };
            action_for(e) == (if e.control_pressed && e.in_search_field {
                KeyAction::RecallQuery(way)
            } else {
                KeyAction::Move(way)
            })
        }),
        action_for(e) is Move || action_for(e) is RecallQuery <==> e.key == 0x26 || e.key == 0x28,
        action_for(e) == KeyAction::SelectFirst <==> e.control_pressed && e.key == 0x24,
        action_for(e) == KeyAction::SelectLast <==> e.control_pressed && e.key == 0x23,
        action_for(e) == KeyAction::ToggleShowAll <==> e.control_pressed && e.key == 0x22,
        action_for(e) == KeyAction::MovePage(1) <==> !e.control_pressed && e.key == 0x22,
        action_for(e) == KeyAction::MovePage((-1) as i32) <==> e.key == 0x21,
        action_for(e) == KeyAction::SelectText <==> e.in_search_field && e.control_pressed && e.key
            == 0x41,
{
}

/// What is typed elsewhere goes to the search field; nothing goes there from the field itself,
/// nor on a system key. A key that is let go does nothing.
pub proof fn lemma_typing_goes_to_the_search_field(e: KeyEvent)
    ensures
        action_for(e) == KeyAction::RouteToSearch ==> e.in_launcher && e.plain_key_down
            && !e.in_search_field,
        plain_press(e) && e.plain_key_down && !e.in_search_field && !e.control_pressed
            && !e.alt_pressed && !e.windows_pressed && (e.key == 0x08 || e.key == 0x2e || e.key
            == 0x25 || e.key == 0x27 || e.key == 0xe5) ==> action_for(e)
            == KeyAction::RouteToSearch,
        plain_press(e) && e.plain_key_down && !e.in_search_field && !e.control_pressed
            && !e.alt_pressed && !e.windows_pressed && 0x30 <= e.key <= 0x5a && 0x20 <= e.mapped
            < 0x8000_0000 ==> action_for(e) == KeyAction::RouteToSearch,
        !e.plain_key_down && !e.system_key_down ==> action_for(e) == KeyAction::Pass,
{
}

/// A captured hotkey is kept from everything else; space changes a row of the lists, but not
/// one of the query rules.
pub proof fn lemma_settings_come_first(e: KeyEvent)
    requires
        e.plain_key_down || e.system_key_down,
    ensures
        e.hotkey_captured ==> action_for(e) == KeyAction::Swallow,
        !e.hotkey_captured && e.in_folder_list && e.key == 0x20 ==> action_for(e) == (
        if e.shows_query_rules {
            KeyAction::Swallow
        } else {
            KeyAction::ToggleFolder
        }),
        !e.hotkey_captured && !e.in_folder_list && e.in_rule_list && e.key == 0x20 ==> action_for(e)
            == KeyAction::ToggleRule,
        action_for(e) == KeyAction::ToggleFolder ==> e.in_folder_list && !e.shows_query_rules,
        action_for(e) == KeyAction::ToggleRule ==> e.in_rule_list,
        !e.in_launcher && !e.in_folder_list && !e.in_rule_list && !e.hotkey_captured ==> action_for(
            e,
        ) == KeyAction::Pass,
{
}

/// A padded text begins with the text, is as wide as asked for at least, and has blanks behind.
pub proof fn lemma_padded_to_a_width(s: Seq<char>, width: int)
    ensures
        padded(s, width).len() >= width,
        padded(s, width).len() >= s.len(),
        padded(s, width).len() == s.len() || padded(s, width).len() == width,
        padded(s, width).take(s.len() as int) == s,
        forall|i: int| s.len() <= i < padded(s, width).len() ==> #[trigger] padded(s, width)[i] == ' ',
{
    assert(padded(s, width).take(s.len() as int) =~= s);
}

/// Some row is shown wherever there are results, and no more than there are or fit.
pub proof fn lemma_rows_that_are_shown(count: nat, visible_rows: nat)
    ensures
        rows_used(count as int, visible_rows as int) <= count,
        count > 0 ==> rows_used(count as int, visible_rows as int) >= 1,
        visible_rows >= 1 ==> rows_used(count as int, visible_rows as int) <= visible_rows,
        1 <= visible_rows <= count ==> rows_used(count as int, visible_rows as int) == visible_rows,
        count <= visible_rows ==> rows_used(count as int, visible_rows as int) == count,
{
}

/// A step forwards and a step back lead to where one was; behind the last comes the first, and
/// before the first the last. Where nothing is selected, one begins at an end.
pub proof fn lemma_moves_go_around(index: usize, count: usize)
    requires
        index < count,
    ensures
        moved_selection(Some(index), count, 0) == Some(index as int),
        moved_selection(Some(index), count, 1) == Some(
            if index + 1 < count {
                index + 1
            } else {
                0
            },
        ),
        moved_selection(Some(index), count, -1) == Some(
            if index > 0 {
                index - 1
            } else {
                count - 1
            },
        ),
        moved_selection(Some(index), count, count as int) == Some(index as int),
        moved_selection(None, count, 1) == Some(0int),
        moved_selection(None, count, -1) == Some(count - 1),
        moved_selection(Some(index), 0, 1) is None,
{
    vstd::arithmetic::div_mod::lemma_small_mod(index as nat, count as nat);
    if index + 1 < count {
        vstd::arithmetic::div_mod::lemma_small_mod((index + 1) as nat, count as nat);
    } else {
        vstd::arithmetic::div_mod::lemma_mod_self_0(count as int);
    }
    vstd::arithmetic::div_mod::lemma_mod_add_multiples_vanish(index as int, count as int);
    assert((count as int + index as int) == (index as int + count as int));
    if index > 0 {
        vstd::arithmetic::div_mod::lemma_small_mod((index - 1) as nat, count as nat);
    } else {
        vstd::arithmetic::div_mod::lemma_small_mod((count - 1) as nat, count as nat);
        vstd::arithmetic::div_mod::lemma_mod_add_multiples_vanish(-1, count as int);
    }
}

/// A page goes as far as rows are shown, and no further than the ends; from an end one goes
/// nowhere.
pub proof fn lemma_pages_go_by_rows(index: usize, top: usize, count: usize, visible_rows: usize)
    requires
        index < count,
    ensures
        ({
            let rows = rows_used(count as int, visible_rows as int);
            &&& paged_selection(Some(index), top, count, visible_rows, true) matches Some((at, _))
            &&& at == index + rows || at == count - 1 < index + rows
        }),
        ({
            let rows = rows_used(count as int, visible_rows as int);
            &&& paged_selection(Some(index), top, count, visible_rows, false) matches Some((at, _))
            &&& at == index - rows || at == 0 > index - rows
        }),
        paged_selection(None, top, count, visible_rows, true) == Some((0int, 0int)),
        paged_selection(None, top, count, visible_rows, false) matches Some((at, _)) && at == count
            - 1,
        paged_selection(Some(index), top, 0, visible_rows, true) is None,
{
}

} // verus!
