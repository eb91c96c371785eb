//! What the shell is asked to do with a path.

use crate::bytes;
use crate::recent_paths;
use crate::text;
use crate::wide;
use crate::winpath;
use vstd::prelude::*;

verus! {

// ---------------------------------------------------------------------------
// Shortcuts
// ---------------------------------------------------------------------------

/// A path has an extension, whatever the case of its letters.
pub open spec fn has_extension(path: Seq<char>, wanted: Seq<char>) -> bool {
    winpath::extension(path) matches Some(e) && text::same_ignoring_ascii_case(e, wanted)
}

/// Whether a path has an extension.
fn extension_is(path: &str, wanted: &str) -> (r: bool)
    ensures
        r == has_extension(path@, wanted@),
{
    match winpath::extension_of(path) {
        Some(e) => {
            let a = text::chars_of(e.as_str());
            let b = text::chars_of(wanted);
            text::equal_ignoring_ascii_case(a.as_slice(), b.as_slice())
        },
        None => false,
    }
}

/// Whether a path is a shell link.
pub fn is_lnk_file(path: &str) -> (r: bool)
    ensures
        r == has_extension(path@, "lnk"@),
{
    extension_is(path, "lnk")
}

/// Whether a path is a shortcut to a file or an address.
pub fn is_shortcut_file(path: &str) -> (r: bool)
    ensures
        r == (has_extension(path@, "lnk"@) || has_extension(path@, "url"@)),
{
    extension_is(path, "lnk") || extension_is(path, "url")
}

/// The folder that a link leads to: its target where that is a folder, else the folder
/// of a file; none where the target is not there.
pub open spec fn linked_folder(target: Option<Seq<char>>, is_dir: bool, is_file: bool) -> Option<Seq<char>> {
    match target {
        None => None,
        Some(path) => if is_dir {
            Some(path)
        } else if is_file {
            winpath::parent(path)
        } else {
            None
        },
    }
}

/// The folder that a link leads to.
pub fn linked_target_folder(target: &Option<String>, is_dir: bool, is_file: bool) -> (r: Option<String>)
    ensures
        text::optional(r) == linked_folder(text::optional(*target), is_dir, is_file),
{
    match target {
        None => None,
        Some(path) => if is_dir {
            Some(path.clone())
        } else if is_file {
            winpath::parent_of(path.as_str())
        } else {
            None
        },
    }
}

/// The path in a buffer that a zero ends; none where it is empty.
pub fn path_from_wide_buffer(buffer: &[u16]) -> (r: Option<String>)
    ensures
        text::optional(r) == (if wide::zero_place(buffer@) == 0 {
            None
        } else {
            Some(wide::decoded(buffer@.take(wide::zero_place(buffer@))))
        }),
{
    if buffer.len() == 0 || buffer[0] == 0 {
        return None;
    }
    proof {
        assert(wide::zero_place(buffer@) == 1 + wide::zero_place(buffer@.skip(1)));
        lemma_zero_place(buffer@.skip(1));
    }
    Some(wide::text_before_zero(buffer))
}

proof fn lemma_zero_place(s: Seq<u16>)
    ensures
        0 <= wide::zero_place(s) <= s.len(),
    decreases s.len(),
{
    if s.len() > 0 && s[0] != 0 {
        lemma_zero_place(s.skip(1));
    }
}

// ---------------------------------------------------------------------------
// Launching
// ---------------------------------------------------------------------------

/// The directory that a path is launched in: a folder in itself, a file in its folder;
/// a link says it itself.
pub open spec fn launch_directory(path: Seq<char>, is_directory: bool) -> Option<Seq<char>> {
    if has_extension(path, "lnk"@) {
        None
    } else if is_directory {
        Some(path)
    } else {
        match winpath::parent(path) {
            Some(parent) => if parent.len() == 0 {
                None
            } else {
                Some(parent)
            },
            None => None,
        }
    }
}

/// The directory that a path is launched in.
pub fn launch_working_directory(path: &str, is_directory: bool) -> (r: Option<String>)
    ensures
        text::optional(r) == launch_directory(path@, is_directory),
{
    if is_lnk_file(path) {
        return None;
    }
    if is_directory {
        return Some(path.to_owned());
    }
    match winpath::parent_of(path) {
        Some(parent) => if parent.as_str().is_empty() {
            None
        } else {
            Some(parent)
        },
        None => None,
    }
}

/// Whether a path is launched as the shell sees fit, rather than opened.
pub fn launch_uses_default_shell_verb(path: &str) -> (r: bool)
    ensures
        r == has_extension(path@, "lnk"@),
{
    is_lnk_file(path)
}

/// What the file browser is given to show a directory: the path in quotation marks.
pub fn explorer_directory_parameters(path: &str) -> (r: Vec<u16>)
    ensures
        r@ == seq![0x22u16] + wide::utf16(path@) + seq![0x22u16, 0u16],
{
    let units = wide::encode_wide(path);
    let mut out: Vec<u16> = Vec::new();
    out.push(0x22);
    let mut i: usize = 0;
    while i < units.len()
        invariant
            i <= units.len(),
            out@ =~= seq![0x22u16] + units@.take(i as int),
        decreases units.len() - i,
    {
        out.push(units[i]);
        i += 1;
    }
    proof {
        assert(units@.take(i as int) =~= units@);
    }
    out.push(0x22);
    out.push(0);
    proof {
        assert(out@ =~= seq![0x22u16] + wide::utf16(path@) + seq![0x22u16, 0u16]);
    }
    out
}

/// The text behind the path of a folder: it ends with a separator.
pub fn folder_menu_path(path: &str) -> (r: String)
    ensures
        r@ == (if path@.len() > 0 && (path@.last() == '\\' || path@.last() == '/') {
            path@
        } else {
            path@.push('\\')
        }),
        r@.last() == '\\' || r@.last() == '/',
        text::has_prefix(r@, path@),
        r@.len() <= path@.len() + 1,
{
    let chars = text::chars_of(path);
    let mut out = path.to_owned();
    let ends = chars.len() > 0 && (chars[chars.len() - 1] == '\\' || chars[chars.len() - 1] == '/');
    if !ends {
        out.push('\\');
    }
    proof {
        assert(out@.subrange(0, path@.len() as int) =~= path@);
    }
    out
}

/// Whether a result of the shell says that all went well.
pub fn shell_execute_succeeded(code: isize) -> (r: bool)
    ensures
        r == (code > 32),
{
    code > 32
}

/// What a code of the shell means.
pub open spec fn shell_error(code: int) -> Seq<char> {
    if code == 0 {
        "Out of memory or resources."@
    } else if code == 2 {
        "File was not found."@
    } else if code == 3 {
        "Path was not found."@
    } else if code == 5 {
        "Access denied."@
    } else if code == 8 {
        "Not enough memory."@
    } else if code == 11 {
        "Invalid executable file."@
    } else if code == 26 {
        "A sharing violation occurred."@
    } else if code == 27 {
        "File association is incomplete or invalid."@
    } else if code == 28 {
        "DDE transaction timed out."@
    } else if code == 29 {
        "DDE transaction failed."@
    } else if code == 30 {
        "DDE is busy."@
    } else if code == 31 {
        "No application is associated with this file type."@
    } else if code == 32 {
        "Dynamic-link library was not found."@
    } else {
        "Windows ShellExecute failed."@
    }
}

/// What a code of the shell means.
fn shell_error_text(code: isize) -> (r: &'static str)
    ensures
        r@ == shell_error(code as int),
{
    match code {
        0 => "Out of memory or resources.",
        2 => "File was not found.",
        3 => "Path was not found.",
        5 => "Access denied.",
        8 => "Not enough memory.",
        11 => "Invalid executable file.",
        26 => "A sharing violation occurred.",
        27 => "File association is incomplete or invalid.",
        28 => "DDE transaction timed out.",
        29 => "DDE transaction failed.",
        30 => "DDE is busy.",
        31 => "No application is associated with this file type.",
        32 => "Dynamic-link library was not found.",
        _ => "Windows ShellExecute failed.",
    }
}

/// The message for a code of the shell, with the extension of the file where it is one.
pub fn shell_execute_error_message(code: isize, file: &Option<String>) -> (r: String)
    ensures
        r@ == shell_error(code as int) + " ShellExecute code: "@ + text::decimal(code as int) + "."@
            + (match file {
            Some(path) => match winpath::extension(path@) {
                Some(e) => " File extension: ."@ + e + "."@,
                None => Seq::empty(),
            },
            None => Seq::empty(),
        }),
{
    let number = text::decimal_i64(code as i64);
    let message = text::cat4(
        shell_error_text(code),
        " ShellExecute code: ",
        number.as_str(),
        ".",
    );
    let ghost first = message@;
    proof {
        assert(first + Seq::<char>::empty() =~= first);
    }
    match file {
        Some(path) => match winpath::extension_of(path.as_str()) {
            Some(e) => {
                let tail = text::cat3(" File extension: .", e.as_str(), ".");
                text::cat2(message.as_str(), tail.as_str())
            },
            None => message,
        },
        None => message,
    }
}

// ---------------------------------------------------------------------------
// Codes of components
// ---------------------------------------------------------------------------

/// Whether a code says that something failed.
pub fn failed(code: i32) -> (r: bool)
    ensures
        r == (code < 0),
{
    code < 0
}

/// A digit to the base of sixteen.
pub open spec fn hex_digit(n: int) -> char {
    if n < 10 {
        (0x30 + n) as char
    } else {
        (0x41 + n - 10) as char
    }
}

/// The last `width` digits of a number to the base of sixteen.
pub open spec fn hex(n: int, width: nat) -> Seq<char>
    decreases width,
{
    if width == 0 {
        Seq::empty()
    } else {
        hex(n / 16, (width - 1) as nat).push(hex_digit(n % 16))
    }
}

/// A digit to the base of sixteen.
fn hex_char(n: u32) -> (r: char)
    requires
        n < 16,
    ensures
        r == hex_digit(n as int),
{
    match n {
        0 => '0',
        1 => '1',
        2 => '2',
        3 => '3',
        4 => '4',
        5 => '5',
        6 => '6',
        7 => '7',
        8 => '8',
        9 => '9',
        10 => 'A',
        11 => 'B',
        12 => 'C',
        13 => 'D',
        14 => 'E',
        _ => 'F',
    }
}

/// Appends the last digits of a number to the base of sixteen.
fn append_hex(out: &mut String, n: u32, width: u32)
    ensures
        final(out)@ == old(out)@ + hex(n as int, width as nat),
    decreases width,
{
    if width > 0 {
        append_hex(out, n / 16, width - 1);
        out.push(hex_char(n % 16));
    }
    proof {
        assert(out@ =~= old(out)@ + hex(n as int, width as nat));
    }
}

/// The message that an operation failed with a code.
pub fn format_hresult(operation: &str, code: i32) -> (r: String)
    ensures
        r@ == operation@ + " failed: 0x"@ + hex(bytes::unsigned(code) as int, 8),
{
    let mut out = text::cat2(operation, " failed: 0x");
    append_hex(&mut out, bytes::to_unsigned(code), 8);
    out
}

// ---------------------------------------------------------------------------
// Names of shortcuts
// ---------------------------------------------------------------------------

/// A character that cannot stand in a file name.
pub open spec fn is_unfit(c: char) -> bool {
    let u = c as u32;
    ||| u < 0x20
    ||| 0x7f <= u < 0xa0
    ||| c == '<'
    ||| c == '>'
    ||| c == ':'
    ||| c == '"'
    ||| c == '/'
    ||| c == '\\'
    ||| c == '|'
    ||| c == '?'
    ||| c == '*'
}

/// A text with spaces in the place of what cannot stand in a file name.
pub open spec fn spaced(s: Seq<char>) -> Seq<char> {
    Seq::new(
        s.len(),
        |i: int|
            if is_unfit(s[i]) {
                ' '
            } else {
                s[i]
            },
    )
}

/// The name of a shortcut: the words that are left, up to a length.
pub open spec fn shortcut_stem(value: Seq<char>) -> Seq<char> {
    let name = text::join(text::words(spaced(value)), " "@);
    if name.len() == 0 {
        "Shortcut"@
    } else if name.len() > 80 {
        name.take(80)
    } else {
        name
    }
}

/// Makes the name of a shortcut out of a text.
pub fn sanitize_shortcut_stem(value: &str) -> (r: String)
    ensures
        r@ == shortcut_stem(value@),
{
    let chars = text::chars_of(value);
    let mut kept: Vec<char> = Vec::new();
    let mut i: usize = 0;
    while i < chars.len()
        invariant
            i <= chars.len(),
            chars@ == value@,
            kept@ =~= spaced(value@).take(i as int),
        decreases chars.len() - i,
    {
        let c: char = chars[i];
        let u: u32 = c as u32;
        let unfit = u < 0x20 || (0x7f <= u && u < 0xa0) || c == '<' || c == '>' || c == ':' || c
            == '"' || c == '/' || c == '\\' || c == '|' || c == '?' || c == '*';
        kept.push(
            if unfit {
                ' '
            } else {
                c
            },
        );
        i += 1;
    }
    proof {
        assert(kept@ =~= spaced(value@));
    }
    let text_kept = text::string_of(kept.as_slice());
    let words = text::split_whitespace(text_kept.as_str());
    let name = text::join_texts(words.as_slice(), " ");
    let name_chars = text::chars_of(name.as_str());
    if name_chars.len() == 0 {
        return "Shortcut".to_owned();
    }
    if name_chars.len() <= 80 {
        return name;
    }
    let mut first = name_chars;
    first.truncate(80);
    proof {
        assert(first@ =~= name@.take(80));
    }
    text::string_of(first.as_slice())
}

/// The file name of a shortcut with a title; the name of its target where it has none.
pub fn unique_shortcut_name(title: &str, target: &str) -> (r: String)
    ensures
        r@ == shortcut_stem(
            if text::trimmed(title@).len() == 0 {
                recent_paths::display_name(target@)
            } else {
                title@
            },
        ) + ".lnk"@,
{
    let plain = text::trim_text(title);
    let base: String = if plain.as_str().is_empty() {
        let name = recent_paths::path_display_name(target);
        sanitize_shortcut_stem(name.as_str())
    } else {
        sanitize_shortcut_stem(title)
    };
    text::cat2(base.as_str(), ".lnk")
}

/// The directory that a shortcut starts its target in.
pub fn shortcut_working_directory(target: &str, is_dir: bool) -> (r: String)
    ensures
        r@ == (if is_dir {
            target@
        } else {
            match winpath::parent(target@) {
                Some(parent) => parent,
                None => Seq::empty(),
            }
        }),
{
    if is_dir {
        target.to_owned()
    } else {
        match winpath::parent_of(target) {
            Some(parent) => parent,
            None => {
                let none = String::new();
                proof {
                    assert(none@ =~= Seq::<char>::empty());
                }
                none
            },
        }
    }
}

/// Whether a file among the shortcuts for dragging is a shortcut of more than an hour
/// ago, its age in nanoseconds.
pub fn is_old_drag_shortcut(path: &str, age: Option<u128>) -> (r: bool)
    ensures
        r == (winpath::extension(path@) == Some("lnk"@) && (match age {
            Some(n) => n > 3_600_000_000_000,
            None => false,
        })),
{
    let is_link = match winpath::extension_of(path) {
        Some(e) => text::same_text(e.as_str(), "lnk"),
        None => false,
    };
    is_link && match age {
        Some(n) => n > 3_600_000_000_000,
        None => false,
    }
}

// ---------------------------------------------------------------------------
// Icons
// ---------------------------------------------------------------------------

/// Files with an extension each have an icon of their own.
pub open spec fn has_own_icon(extension: Seq<char>) -> bool {
    ||| extension.len() == 0
    ||| extension == "exe"@
    ||| extension == "lnk"@
    ||| extension == "ico"@
    ||| extension == "url"@
    ||| extension == "appref-ms"@
}

/// The extension of a path in small letters; empty where it has none.
pub open spec fn small_extension(path: Seq<char>) -> Seq<char> {
    match winpath::extension(path) {
        Some(e) => text::ascii_lower_seq(e),
        None => Seq::empty(),
    }
}

/// The key under which the icon of a path is kept.
pub fn icon_cache_key(path: &str, is_dir: bool) -> (r: String)
    ensures
        r@ == (if is_dir {
            "dir"@
        } else if has_own_icon(small_extension(path@)) {
            "path:"@ + text::fold(path@)
        } else {
            "ext:"@ + small_extension(path@)
        }),
{
    if is_dir {
        return "dir".to_owned();
    }
    let extension: String = match winpath::extension_of(path) {
        Some(e) => {
            let chars = text::chars_of(e.as_str());
            text::string_of(text::ascii_lower_chars(chars.as_slice()).as_slice())
        },
        None => {
            let none = String::new();
            proof {
                assert(none@ =~= Seq::<char>::empty());
            }
            none
        },
    };
    let e = extension.as_str();
    if e.is_empty() || text::same_text(e, "exe") || text::same_text(e, "lnk") || text::same_text(
        e,
        "ico",
    ) || text::same_text(e, "url") || text::same_text(e, "appref-ms") {
        let folded = text::fold_text(path);
        text::cat2("path:", folded.as_str())
    } else {
        text::cat2("ext:", e)
    }
}

// ---------------------------------------------------------------------------
// Dragging
// ---------------------------------------------------------------------------

/// What becomes of a drag.
#[derive(Clone, Copy, Debug, PartialEq, Eq, Structural)]
pub enum DragStep {
    Continue,
    Drop,
    Cancel,
}

/// What becomes of a drag with keys and buttons as they are.
pub fn query_continue_drag(escape_pressed: bool, left_button_held: bool) -> (r: DragStep)
    ensures
        r == (if escape_pressed {
            DragStep::Cancel
        } else if !left_button_held {
            DragStep::Drop
        } else {
            DragStep::Continue
        }),
{
    if escape_pressed {
        DragStep::Cancel
    } else if !left_button_held {
        DragStep::Drop
    } else {
        DragStep::Continue
    }
}

/// The clipboard format of a list of files.
pub const CF_HDROP: u16 = 15;

/// The aspect of content.
pub const DVASPECT_CONTENT: u32 = 1;

/// Whether what is dragged can be had in a format: as a list of files, its content, in
/// global memory.
pub fn accepts_drop_format(format: u16, aspect: u32, media: u32) -> (r: bool)
    ensures
        r == (format == CF_HDROP && aspect == DVASPECT_CONTENT && media % 2 == 1),
{
    format == CF_HDROP && aspect == DVASPECT_CONTENT && media % 2 == 1
}

/// The length of the head of a list of files.
pub const DROP_HEADER_LEN: u64 = 20;

/// The bytes of a list with one file: where the names begin, no point, no frame, wide
/// names, and then the name with two zeros behind it.
pub open spec fn drop_list(path: Seq<u16>) -> Seq<u8> {
    bytes::le(20, 4) + bytes::le(0, 4) + bytes::le(0, 4) + bytes::le(0, 4) + bytes::le(1, 4)
        + wide::unit_bytes(path.push(0).push(0))
}

/// Makes the bytes of a list with one file.
pub fn hdrop_bytes(path: &Vec<u16>) -> (r: Vec<u8>)
    ensures
        r@ == drop_list(path@),
{
    let mut units: Vec<u16> = Vec::new();
    let mut i: usize = 0;
    while i < path.len()
        invariant
            i <= path.len(),
            units@ =~= path@.take(i as int),
        decreases path.len() - i,
    {
        units.push(path[i]);
        i += 1;
    }
    proof {
        assert(units@ =~= path@);
    }
    units.push(0);
    units.push(0);
    let mut out: Vec<u8> = Vec::new();
    bytes::append_le(&mut out, DROP_HEADER_LEN, 4);
    bytes::append_le(&mut out, 0, 4);
    bytes::append_le(&mut out, 0, 4);
    bytes::append_le(&mut out, 0, 4);
    bytes::append_le(&mut out, 1, 4);
    let names = wide::encode_wide_payload(units.as_slice());
    bytes::append_bytes(&mut out, names.as_slice());
    proof {
        assert(out@ =~= drop_list(path@));
    }
    out
}

// ---------------------------------------------------------------------------
// Where things are started, and what they are called
// ---------------------------------------------------------------------------

/// A folder is started in itself, a file in the folder that it lies in, and a link says for
/// itself where. What a link leads to lies in a folder as well: itself where it is one.
pub proof fn lemma_where_things_start(path: Seq<char>, is_directory: bool)
    ensures
        has_extension(path, "lnk"@) ==> launch_directory(path, is_directory) is None,
        !has_extension(path, "lnk"@) && is_directory ==> launch_directory(path, is_directory)
            == Some(path),
        !has_extension(path, "lnk"@) && !is_directory ==> launch_directory(path, is_directory) == (
        match winpath::parent(path) {
            Some(folder) if folder.len() > 0 => Some(folder),
            _ => None,
        }),
        linked_folder(Some(path), true, is_directory) == Some(path),
        linked_folder(Some(path), false, true) == winpath::parent(path),
        linked_folder(Some(path), false, false) is None,
        linked_folder(None, is_directory, true) is None,
{
}

/// The extension of a file counts whatever the case of its letters.
pub proof fn lemma_extensions_in_any_case(path: Seq<char>, other: Seq<char>, wanted: Seq<char>)
    requires
        winpath::extension(path) is Some,
        winpath::extension(other) is Some,
        text::same_ignoring_ascii_case(winpath::extension(path)->0, winpath::extension(other)->0),
    ensures
        has_extension(path, wanted) == has_extension(other, wanted),
        has_extension(path, winpath::extension(path)->0),
        small_extension(path) == small_extension(other),
        winpath::extension(path) is None ==> !has_extension(path, wanted),
{
}

/// The codes of the shell with a meaning of their own; all others have one in common.
pub proof fn lemma_codes_of_the_shell(code: int)
    ensures
        shell_error(0) == "Out of memory or resources."@,
        shell_error(2) == "File was not found."@,
        shell_error(3) == "Path was not found."@,
        shell_error(5) == "Access denied."@,
        shell_error(8) == "Not enough memory."@,
        shell_error(11) == "Invalid executable file."@,
        shell_error(26) == "A sharing violation occurred."@,
        shell_error(27) == "File association is incomplete or invalid."@,
        shell_error(28) == "DDE transaction timed out."@,
        shell_error(29) == "DDE transaction failed."@,
        shell_error(30) == "DDE is busy."@,
        shell_error(31) == "No application is associated with this file type."@,
        shell_error(32) == "Dynamic-link library was not found."@,
        !seq![0int, 2, 3, 5, 8, 11, 26, 27, 28, 29, 30, 31, 32].contains(code) ==> shell_error(code)
            == "Windows ShellExecute failed."@,
{
    let known = seq![0int, 2, 3, 5, 8, 11, 26, 27, 28, 29, 30, 31, 32];
    assert(known[0] == 0 && known[1] == 2 && known[2] == 3 && known[3] == 5 && known[4] == 8
        && known[5] == 11 && known[6] == 26 && known[7] == 27 && known[8] == 28 && known[9] == 29
        && known[10] == 30 && known[11] == 31 && known[12] == 32);
}

/// What a digit to the base of sixteen is worth.
pub open spec fn hex_worth(c: char) -> int {
    if '0' <= c && c <= '9' {
        c as u32 - '0' as u32
    } else {
        c as u32 - 'A' as u32 + 10
    }
}

/// A number to the base of sixteen has as many digits as asked for, the lowest last, and each
/// is a digit or a capital letter from A to F.
pub proof fn lemma_written_in_sixteens(n: nat, width: nat)
    ensures
        hex(n as int, width).len() == width,
        forall|i: int|
            0 <= i < width ==> ('0' <= #[trigger] hex(n as int, width)[i] && hex(n as int, width)[i]
                <= '9') || ('A' <= hex(n as int, width)[i] && hex(n as int, width)[i] <= 'F'),
        width > 0 ==> hex_worth(hex(n as int, width).last()) == n % 16 && hex(
            n as int,
            width,
        ).drop_last() == hex(n as int / 16, (width - 1) as nat),
    decreases width,
{
    if width > 0 {
        lemma_written_in_sixteens(n / 16, (width - 1) as nat);
        let before = hex(n as int / 16, (width - 1) as nat);
        let shown = hex(n as int, width);
        assert(shown == before.push(hex_digit(n as int % 16)));
        assert(shown.drop_last() =~= before);
        assert forall|i: int| 0 <= i < width implies ('0' <= #[trigger] shown[i] && shown[i] <= '9')
            || ('A' <= shown[i] && shown[i] <= 'F') by {
            if i < width - 1 {
                assert(shown[i] == before[i]);
            }
        }
    }
}

proof fn lemma_joined_from(parts: Seq<Seq<char>>, fits: spec_fn(char) -> bool)
    requires
        fits(' '),
        forall|k: int, i: int|
            0 <= k < parts.len() && 0 <= i < parts[k].len() ==> fits(#[trigger] parts[k][i]),
    ensures
        forall|i: int|
            0 <= i < text::join(parts, " "@).len() ==> fits(#[trigger] text::join(parts, " "@)[i]),
    decreases parts.len(),
{
    reveal_strlit(" ");
    if parts.len() > 1 {
        let front = parts.drop_last();
        assert forall|k: int, i: int|
            0 <= k < front.len() && 0 <= i < front[k].len() implies fits(#[trigger] front[k][i]) by {
            assert(front[k] == parts[k]);
            assert(fits(parts[k][i]));
        }
        lemma_joined_from(front, fits);
        let all = text::join(parts, " "@);
        let before = text::join(front, " "@);
        assert(all == before + " "@ + parts.last());
        let last = parts.len() - 1;
        assert forall|i: int| 0 <= i < all.len() implies fits(#[trigger] all[i]) by {
            if i < before.len() {
                assert(all[i] == before[i]);
            } else if i > before.len() {
                assert(all[i] == parts[last][i - before.len() - 1]);
            }
        }
    } else if parts.len() == 1 {
        assert forall|i: int|
            0 <= i < text::join(parts, " "@).len() implies fits(#[trigger] text::join(parts, " "@)[i]) by {
            assert(fits(parts[0][i]));
        }
    }
}

/// The name of a shortcut is never empty nor too long, and holds no character that cannot stand
/// in the name of a file.
pub proof fn lemma_names_of_shortcuts(value: Seq<char>)
    ensures
        0 < shortcut_stem(value).len() <= 80,
        forall|i: int|
            0 <= i < shortcut_stem(value).len() ==> !is_unfit(#[trigger] shortcut_stem(value)[i]),
        is_unfit('\\') && is_unfit('/') && is_unfit(':') && is_unfit('*') && is_unfit('?')
            && is_unfit('"') && is_unfit('<') && is_unfit('>') && is_unfit('|') && is_unfit('\n')
            && is_unfit('\t') && is_unfit('\r'),
        forall|c: char| #[trigger] text::ascii_alphanumeric(c) ==> !is_unfit(c),
{
    reveal_strlit("Shortcut");
    let fits = |c: char| !is_unfit(c);
    let clean = spaced(value);
    let parts = text::words(clean);
    text::lemma_words_occur(clean);
    assert forall|k: int, i: int|
        0 <= k < parts.len() && 0 <= i < parts[k].len() implies fits(#[trigger] parts[k][i]) by {
        assert(text::has_infix(clean, parts[k]));
        let at = choose|at: int| text::occurs_at(clean, parts[k], at);
        assert(clean.subrange(at, at + parts[k].len())[i] == clean[at + i]);
    }
    lemma_joined_from(parts, fits);
    let name = text::join(parts, " "@);
    assert forall|i: int| 0 <= i < shortcut_stem(value).len() implies !is_unfit(
        #[trigger] shortcut_stem(value)[i],
    ) by {
        if name.len() > 0 {
            assert(shortcut_stem(value)[i] == name[i]);
            assert(fits(name[i]));
        }
    }
}

/// A text of words of letters and digits with single spaces between them is the name of its
/// shortcut as it is.
pub proof fn lemma_fit_names_stay(parts: Seq<Seq<char>>)
    requires
        forall|k: int| 0 <= k < parts.len() ==> (#[trigger] parts[k]).len() > 0,
        forall|k: int, i: int|
            0 <= k < parts.len() && 0 <= i < parts[k].len() ==> text::ascii_alphanumeric(
                #[trigger] parts[k][i],
            ),
        0 < text::join(parts, " "@).len() <= 80,
    ensures
        shortcut_stem(text::join(parts, " "@)) == text::join(parts, " "@),
{
    reveal_strlit(" ");
    assert(" "@ =~= seq![' ']);
    let value = text::join(parts, " "@);
    let fits = |c: char| !is_unfit(c);
    let visible = |c: char| !text::white_space(c);
    assert forall|k: int, i: int|
        0 <= k < parts.len() && 0 <= i < parts[k].len() implies fits(#[trigger] parts[k][i])
        && visible(parts[k][i]) by {
        assert(text::ascii_alphanumeric(parts[k][i]));
    }
    lemma_joined_from(parts, fits);
    assert forall|i: int| 0 <= i < value.len() implies #[trigger] spaced(value)[i] == value[i] by {
        assert(fits(value[i]));
    }
    assert(spaced(value) =~= value);
    text::lemma_runs_joined(parts, ' ', visible);
}

/// Programs, links, icons and files without an extension have icons of their own; others share
/// that of their kind.
pub proof fn lemma_icons_of_their_own(extension: Seq<char>)
    ensures
        has_own_icon(extension) <==> extension == Seq::<char>::empty() || extension == "exe"@
            || extension == "lnk"@ || extension == "ico"@ || extension == "url"@ || extension
            == "appref-ms"@,
{
    if extension.len() == 0 {
        assert(extension =~= Seq::<char>::empty());
    }
}

} // verus!
