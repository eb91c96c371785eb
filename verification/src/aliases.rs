//! Names for well-known folders that paths may begin with.

use crate::document;
use crate::text;
use crate::winpath;
use vstd::prelude::*;

verus! {

/// A name, the environment variable that it stands for (the folder of the
/// program where there is none), and a path below that.
#[derive(Clone, Copy, Debug, PartialEq, Eq)]
pub struct PathAlias {
    pub name: &'static str,
    pub env_key: Option<&'static str>,
    pub suffix: &'static str,
}

/// What an alias says.
#[verifier::ext_equal]
pub struct AliasModel {
    pub name: Seq<char>,
    pub env_key: Option<Seq<char>>,
    pub suffix: Seq<char>,
}

impl View for PathAlias {
    type V = AliasModel;

    open spec fn view(&self) -> AliasModel {
        AliasModel {
            name: self.name@,
            env_key: match self.env_key {
                Some(key) => Some(key@),
                None => None,
            },
            suffix: self.suffix@,
        }
    }
}

/// The environment: variables, and the folder of the program.
#[derive(Debug, PartialEq, Eq)]
pub struct Environment {
    pub variables: Vec<(String, String)>,
    pub app_dir: String,
}

/// The alias of a folder named by an environment variable.
pub open spec fn variable_alias(name: Seq<char>, key: Seq<char>, suffix: Seq<char>) -> AliasModel {
    AliasModel { name, env_key: Some(key), suffix }
}

/// The alias of a folder of the program.
pub open spec fn program_alias(name: Seq<char>, suffix: Seq<char>) -> AliasModel {
    AliasModel { name, env_key: None, suffix }
}

/// All aliases, in the order in which they are tried.
pub open spec fn alias_table() -> Seq<AliasModel> {
    seq![
        variable_alias("%USERPROFILE%"@, "USERPROFILE"@, ""@),
        variable_alias("%APPDATA%"@, "APPDATA"@, ""@),
        variable_alias("%PROGRAMDATA%"@, "PROGRAMDATA"@, ""@),
        variable_alias("%PUBLIC%"@, "PUBLIC"@, ""@),
        variable_alias("%PROGRAMFILES%"@, "ProgramFiles"@, ""@),
        variable_alias("%PROGRAMFILES86%"@, "ProgramFiles(x86)"@, ""@),
        variable_alias("%WINDIR%"@, "WINDIR"@, ""@),
        variable_alias("%MYDOCUMENTS%"@, "USERPROFILE"@, "Documents"@),
        variable_alias("%MYDESKTOP%"@, "USERPROFILE"@, "Desktop"@),
        variable_alias("%ALLDESKTOP%"@, "PUBLIC"@, "Desktop"@),
        variable_alias(
            "%MYSTARTMENU%"@,
            "APPDATA"@,
            "Microsoft\\Windows\\Start Menu\\Programs"@,
        ),
        variable_alias(
            "%COMMONSTARTMENU%"@,
            "PROGRAMDATA"@,
            "Microsoft\\Windows\\Start Menu\\Programs"@,
        ),
        variable_alias("%MYRECENTDOCS%"@, "APPDATA"@, "Microsoft\\Windows\\Recent"@),
        variable_alias("%MYFAVORITES%"@, "USERPROFILE"@, "Favorites"@),
        variable_alias("%MYPICTURES%"@, "USERPROFILE"@, "Pictures"@),
        variable_alias("%MYMUSIC%"@, "USERPROFILE"@, "Music"@),
        variable_alias("%MYVIDEO%"@, "USERPROFILE"@, "Videos"@),
        variable_alias("%COMMONMUSIC%"@, "PUBLIC"@, "Music"@),
        variable_alias("%COMMONPICTURES%"@, "PUBLIC"@, "Pictures"@),
        variable_alias("%COMMONVIDEO%"@, "PUBLIC"@, "Videos"@),
        program_alias("%launcherDIR%"@, ""@),
        program_alias("%CONFIGDIR%"@, "CONFIG"@),
    ]
}

fn alias(name: &'static str, key: &'static str, suffix: &'static str) -> (r: PathAlias)
    ensures
        r@ == variable_alias(name@, key@, suffix@),
{
    PathAlias { name, env_key: Some(key), suffix }
}

fn alias_of_program(name: &'static str, suffix: &'static str) -> (r: PathAlias)
    ensures
        r@ == program_alias(name@, suffix@),
{
    PathAlias { name, env_key: None, suffix }
}

/// What a list of aliases says.
pub open spec fn alias_models(v: Seq<PathAlias>) -> Seq<AliasModel> {
    Seq::new(v.len(), |i: int| v[i]@)
}

/// All aliases, in the order in which they are tried.
pub fn path_aliases() -> (r: Vec<PathAlias>)
    ensures
        alias_models(r@) == alias_table(),
{
    let menu = "Microsoft\\Windows\\Start Menu\\Programs";
    let list = vec![
        alias("%USERPROFILE%", "USERPROFILE", ""),
        alias("%APPDATA%", "APPDATA", ""),
        alias("%PROGRAMDATA%", "PROGRAMDATA", ""),
        alias("%PUBLIC%", "PUBLIC", ""),
        alias("%PROGRAMFILES%", "ProgramFiles", ""),
        alias("%PROGRAMFILES86%", "ProgramFiles(x86)", ""),
        alias("%WINDIR%", "WINDIR", ""),
        alias("%MYDOCUMENTS%", "USERPROFILE", "Documents"),
        alias("%MYDESKTOP%", "USERPROFILE", "Desktop"),
        alias("%ALLDESKTOP%", "PUBLIC", "Desktop"),
        alias("%MYSTARTMENU%", "APPDATA", menu),
        alias("%COMMONSTARTMENU%", "PROGRAMDATA", menu),
        alias("%MYRECENTDOCS%", "APPDATA", "Microsoft\\Windows\\Recent"),
        alias("%MYFAVORITES%", "USERPROFILE", "Favorites"),
        alias("%MYPICTURES%", "USERPROFILE", "Pictures"),
        alias("%MYMUSIC%", "USERPROFILE", "Music"),
        alias("%MYVIDEO%", "USERPROFILE", "Videos"),
        alias("%COMMONMUSIC%", "PUBLIC", "Music"),
        alias("%COMMONPICTURES%", "PUBLIC", "Pictures"),
        alias("%COMMONVIDEO%", "PUBLIC", "Videos"),
        alias_of_program("%launcherDIR%", ""),
        alias_of_program("%CONFIGDIR%", "CONFIG"),
    ];
    proof {
        assert(alias_models(list@) =~= alias_table());
    }
    list
}

// ---------------------------------------------------------------------------
// The environment
// ---------------------------------------------------------------------------

/// The value of the first of the first `n` variables with a name, whatever the case
/// of its ASCII letters.
pub open spec fn value_among(
    variables: Seq<(String, String)>,
    key: Seq<char>,
    from: int,
) -> Option<Seq<char>>
    decreases variables.len() - from,
{
    if from < 0 || from >= variables.len() {
        None
    } else if text::same_ignoring_ascii_case(variables[from].0@, key) {
        Some(variables[from].1@)
    } else {
        value_among(variables, key, from + 1)
    }
}

/// The value of a variable.
pub open spec fn value_of(env: Environment, key: Seq<char>) -> Option<Seq<char>> {
    value_among(env.variables@, key, 0)
}

/// Whether two texts are equal but for the case of ASCII letters.
pub fn same_name(a: &str, b: &str) -> (r: bool)
    ensures
        r == text::same_ignoring_ascii_case(a@, b@),
{
    let x = text::chars_of(a);
    let y = text::chars_of(b);
    text::equal_ignoring_ascii_case(x.as_slice(), y.as_slice())
}

impl Environment {
    /// The value of a variable, whatever the case of its name.
    pub fn get(&self, key: &str) -> (r: Option<String>)
        ensures
            text::optional(r) == value_of(*self, key@),
    {
        let mut i: usize = 0;
        while i < self.variables.len()
            invariant
                i <= self.variables.len(),
                value_of(*self, key@) == value_among(self.variables@, key@, i as int),
            decreases self.variables.len() - i,
        {
            if same_name(self.variables[i].0.as_str(), key) {
                return Some(self.variables[i].1.clone());
            }
            i += 1;
        }
        None
    }
}

/// The folder that the name of an alias stands for, without its suffix.
pub open spec fn alias_base(alias: AliasModel, env: Environment) -> Option<Seq<char>> {
    if text::same_ignoring_ascii_case(alias.name, "%PROGRAMFILES%"@) {
        match value_of(env, "ProgramW6432"@) {
            Some(v) => Some(v),
            None => value_of(env, "ProgramFiles"@),
        }
    } else if text::same_ignoring_ascii_case(alias.name, "%PROGRAMFILES86%"@) {
        match value_of(env, "ProgramFiles(x86)"@) {
            Some(v) => Some(v),
            None => match value_of(env, "ProgramFiles"@) {
                None => None,
                Some(files) => match winpath::parent(files) {
                    None => None,
                    Some(folder) => Some(winpath::joined(folder, "Program Files (x86)"@)),
                },
            },
        }
    } else {
        match alias.env_key {
            Some(key) => value_of(env, key),
            None => Some(env.app_dir@),
        }
    }
}

/// The folder that an alias stands for; none where the environment lacks it.
pub open spec fn alias_value(alias: AliasModel, env: Environment) -> Option<Seq<char>> {
    match alias_base(alias, env) {
        None => None,
        Some(base) => Some(
            if alias.suffix.len() == 0 {
                base
            } else {
                winpath::joined(base, alias.suffix)
            },
        ),
    }
}

/// The folder that an alias stands for.
pub fn alias_path_with_env(alias: &PathAlias, env: &Environment) -> (r: Option<String>)
    ensures
        text::optional(r) == alias_value(alias@, *env),
{
    let base: Option<String> = if same_name(alias.name, "%PROGRAMFILES%") {
        match env.get("ProgramW6432") {
            Some(v) => Some(v),
            None => env.get("ProgramFiles"),
        }
    } else if same_name(alias.name, "%PROGRAMFILES86%") {
        match env.get("ProgramFiles(x86)") {
            Some(v) => Some(v),
            None => match env.get("ProgramFiles") {
                None => None,
                Some(files) => match winpath::parent_of(files.as_str()) {
                    None => None,
                    Some(folder) => Some(
                        winpath::join_paths(folder.as_str(), "Program Files (x86)"),
                    ),
                },
            },
        }
    } else {
        match alias.env_key {
            Some(key) => env.get(key),
            None => Some(env.app_dir.clone()),
        }
    };
    match base {
        None => None,
        Some(folder) => {
            if alias.suffix.is_empty() {
                Some(folder)
            } else {
                Some(winpath::join_paths(folder.as_str(), alias.suffix))
            }
        },
    }
}

/// How an alias is shown in a list of choices.
pub fn alias_display_text(alias: &PathAlias, env: &Environment) -> (r: String)
    ensures
        r@ == (match alias_value(alias@, *env) {
            Some(path) => alias@.name + "  ->  "@ + path,
            None => alias@.name,
        }),
{
    match alias_path_with_env(alias, env) {
        Some(path) => text::cat3(alias.name, "  ->  ", path.as_str()),
        None => alias.name.to_owned(),
    }
}

/// The name among the aliases, whatever its case.
pub open spec fn is_alias_name(name: Seq<char>) -> bool {
    exists|i: int|
        0 <= i < alias_table().len() && text::same_ignoring_ascii_case(
            (#[trigger] alias_table()[i]).name,
            name,
        )
}

/// The alias that a chosen text shows, or else the text itself.
pub open spec fn chosen_name(value: Seq<char>) -> Seq<char> {
    match document::cut(value, "->"@) {
        Some((front, _)) => if is_alias_name(text::trimmed(front)) {
            text::trimmed(front)
        } else {
            text::trimmed(value)
        },
        None => text::trimmed(value),
    }
}

/// The alias that a chosen text shows, or else the text itself.
pub fn alias_name_from_combo_text(value: &str) -> (r: String)
    ensures
        r@ == chosen_name(value@),
{
    let chars = text::chars_of(value);
    if let Some((front, back)) = document::cut_chars(chars.as_slice(), "->") {
        let name = text::trim_chars(front);
        let aliases = path_aliases();
        let mut i: usize = 0;
        while i < aliases.len()
            invariant
                i <= aliases.len(),
                alias_models(aliases@) == alias_table(),
                document::cut(value@, "->"@) == Some((front@, back@)),
                name@ == text::trimmed(front@),
                forall|k: int|
                    0 <= k < i ==> !text::same_ignoring_ascii_case(
                        (#[trigger] alias_table()[k]).name,
                        name@,
                    ),
            decreases aliases.len() - i,
        {
            let known = text::chars_of(aliases[i].name);
            proof {
                assert(alias_table()[i as int] == aliases@[i as int]@);
            }
            if text::equal_ignoring_ascii_case(known.as_slice(), name) {
                return text::string_of(name);
            }
            i += 1;
        }
        proof {
            assert(alias_table().len() == aliases@.len());
        }
    }
    text::string_of(text::trim_chars(chars.as_slice()))
}

// ---------------------------------------------------------------------------
// Replacing
// ---------------------------------------------------------------------------

/// A pattern stands at a position, whatever the case of ASCII letters.
pub open spec fn stands_ignoring_case(s: Seq<char>, pattern: Seq<char>, i: int) -> bool {
    0 <= i && i + pattern.len() <= s.len() && text::same_ignoring_ascii_case(
        s.subrange(i, i + pattern.len()),
        pattern,
    )
}

/// The text from a position on, with every occurrence of a pattern replaced, from
/// left to right.
pub open spec fn replaced(
    s: Seq<char>,
    pattern: Seq<char>,
    replacement: Seq<char>,
    i: int,
) -> Seq<char>
    decreases s.len() - i,
{
    if i < 0 || i >= s.len() || pattern.len() == 0 {
        Seq::empty()
    } else if stands_ignoring_case(s, pattern, i) {
        replacement + replaced(s, pattern, replacement, i + pattern.len())
    } else {
        seq![s[i]] + replaced(s, pattern, replacement, i + 1)
    }
}

/// Replaces every occurrence of a pattern, whatever the case of its ASCII letters.
pub fn replace_ignore_ascii_case(value: &str, pattern: &str, replacement: &str) -> (r: String)
    requires
        pattern@.len() > 0,
    ensures
        r@ == replaced(value@, pattern@, replacement@, 0),
{
    let s = text::chars_of(value);
    let p = text::chars_of(pattern);
    let mut out = String::new();
    let mut i: usize = 0;
    let ghost whole = replaced(s@, p@, replacement@, 0);
    while i < s.len()
        invariant
            i <= s.len(),
            p@.len() > 0,
            p@ == pattern@,
            whole == out@ + replaced(s@, p@, replacement@, i as int),
        decreases s.len() - i,
    {
        let ghost before = out@;
        if p.len() <= s.len() - i && text::equal_ignoring_ascii_case(
            vstd::slice::slice_subrange(s.as_slice(), i, i + p.len()),
            p.as_slice(),
        ) {
            out.append(replacement);
            proof {
                assert(before + (replacement@ + replaced(s@, p@, replacement@, i + p@.len()))
                    =~= out@ + replaced(s@, p@, replacement@, i + p@.len()));
            }
            i += p.len();
        } else {
            out.push(s[i]);
            proof {
                assert(before + (seq![s@[i as int]] + replaced(s@, p@, replacement@, i + 1))
                    =~= out@ + replaced(s@, p@, replacement@, i + 1));
            }
            i += 1;
        }
    }
    proof {
        assert(whole =~= out@);
    }
    out
}

/// A text without any occurrence of the pattern stays as it is.
pub proof fn lemma_nothing_to_replace(
    s: Seq<char>,
    pattern: Seq<char>,
    replacement: Seq<char>,
    i: int,
)
    requires
        0 <= i <= s.len(),
        pattern.len() > 0,
        forall|k: int| i <= k ==> !stands_ignoring_case(s, pattern, k),
    ensures
        replaced(s, pattern, replacement, i) == s.skip(i),
    decreases s.len() - i,
{
    if i < s.len() {
        lemma_nothing_to_replace(s, pattern, replacement, i + 1);
        assert(seq![s[i]] + s.skip(i + 1) =~= s.skip(i));
    } else {
        assert(s.skip(i) =~= Seq::<char>::empty());
    }
}

/// A path text with the first `n` aliases put in.
pub open spec fn expanded(raw: Seq<char>, env: Environment, n: int) -> Seq<char>
    decreases n,
{
    if n <= 0 {
        raw
    } else {
        let before = expanded(raw, env, n - 1);
        match alias_value(alias_table()[n - 1], env) {
            Some(path) => replaced(before, alias_table()[n - 1].name, path, 0),
            None => before,
        }
    }
}

/// The path that a text with aliases stands for.
pub open spec fn expanded_path(raw: Seq<char>, env: Environment) -> Seq<char> {
    expanded(raw, env, alias_table().len() as int)
}

proof fn lemma_alias_names()
    ensures
        forall|i: int| 0 <= i < alias_table().len() ==> (#[trigger] alias_table()[i]).name.len() > 0,
{
    reveal_strlit("%USERPROFILE%");
    reveal_strlit("%APPDATA%");
    reveal_strlit("%PROGRAMDATA%");
    reveal_strlit("%PUBLIC%");
    reveal_strlit("%PROGRAMFILES%");
    reveal_strlit("%PROGRAMFILES86%");
    reveal_strlit("%WINDIR%");
    reveal_strlit("%MYDOCUMENTS%");
    reveal_strlit("%MYDESKTOP%");
    reveal_strlit("%ALLDESKTOP%");
    reveal_strlit("%MYSTARTMENU%");
    reveal_strlit("%COMMONSTARTMENU%");
    reveal_strlit("%MYRECENTDOCS%");
    reveal_strlit("%MYFAVORITES%");
    reveal_strlit("%MYPICTURES%");
    reveal_strlit("%MYMUSIC%");
    reveal_strlit("%MYVIDEO%");
    reveal_strlit("%COMMONMUSIC%");
    reveal_strlit("%COMMONPICTURES%");
    reveal_strlit("%COMMONVIDEO%");
    reveal_strlit("%launcherDIR%");
    reveal_strlit("%CONFIGDIR%");
}

/// The path that a text with aliases stands for: every alias that the environment
/// knows is put in, one after the other.
pub fn expand_path(raw: &str, env: &Environment) -> (r: String)
    ensures
        r@ == expanded_path(raw@, *env),
{
    let aliases = path_aliases();
    let mut value = raw.to_owned();
    let mut i: usize = 0;
    proof {
        lemma_alias_names();
    }
    while i < aliases.len()
        invariant
            i <= aliases.len(),
            alias_models(aliases@) == alias_table(),
            value@ == expanded(raw@, *env, i as int),
            forall|k: int|
                0 <= k < alias_table().len() ==> (#[trigger] alias_table()[k]).name.len() > 0,
        decreases aliases.len() - i,
    {
        proof {
            assert(alias_table()[i as int] == aliases@[i as int]@);
        }
        if let Some(path) = alias_path_with_env(&aliases[i], env) {
            value = replace_ignore_ascii_case(value.as_str(), aliases[i].name, path.as_str());
        }
        i += 1;
    }
    proof {
        assert(alias_table().len() == aliases@.len());
    }
    value
}

// ---------------------------------------------------------------------------
// What aliases stand for
// ---------------------------------------------------------------------------

/// The folders of the user stand below the user's own, the common ones below the public one,
/// the menus, the list of recent documents and the data of programs below those of the
/// system, and the program's own below the program.
pub proof fn lemma_each_alias(m: AliasModel)
    ensures
        alias_table().contains(m) <==> {
            ||| m == (AliasModel { name: "%USERPROFILE%"@, env_key: Some("USERPROFILE"@), suffix: ""@ })
            ||| m == (AliasModel { name: "%APPDATA%"@, env_key: Some("APPDATA"@), suffix: ""@ })
            ||| m == (AliasModel { name: "%PROGRAMDATA%"@, env_key: Some("PROGRAMDATA"@), suffix: ""@ })
            ||| m == (AliasModel { name: "%PUBLIC%"@, env_key: Some("PUBLIC"@), suffix: ""@ })
            ||| m == (AliasModel { name: "%PROGRAMFILES%"@, env_key: Some("ProgramFiles"@), suffix: ""@ })
            ||| m == (AliasModel { name: "%PROGRAMFILES86%"@, env_key: Some("ProgramFiles(x86)"@), suffix: ""@ })
            ||| m == (AliasModel { name: "%WINDIR%"@, env_key: Some("WINDIR"@), suffix: ""@ })
            ||| m == (AliasModel { name: "%MYDOCUMENTS%"@, env_key: Some("USERPROFILE"@), suffix: "Documents"@ })
            ||| m == (AliasModel { name: "%MYDESKTOP%"@, env_key: Some("USERPROFILE"@), suffix: "Desktop"@ })
            ||| m == (AliasModel { name: "%ALLDESKTOP%"@, env_key: Some("PUBLIC"@), suffix: "Desktop"@ })
            ||| m == (AliasModel { name: "%MYSTARTMENU%"@, env_key: Some("APPDATA"@), suffix: "Microsoft\\Windows\\Start Menu\\Programs"@ })
            ||| m == (AliasModel { name: "%COMMONSTARTMENU%"@, env_key: Some("PROGRAMDATA"@), suffix: "Microsoft\\Windows\\Start Menu\\Programs"@ })
            ||| m == (AliasModel { name: "%MYRECENTDOCS%"@, env_key: Some("APPDATA"@), suffix: "Microsoft\\Windows\\Recent"@ })
            ||| m == (AliasModel { name: "%MYFAVORITES%"@, env_key: Some("USERPROFILE"@), suffix: "Favorites"@ })
            ||| m == (AliasModel { name: "%MYPICTURES%"@, env_key: Some("USERPROFILE"@), suffix: "Pictures"@ })
            ||| m == (AliasModel { name: "%MYMUSIC%"@, env_key: Some("USERPROFILE"@), suffix: "Music"@ })
            ||| m == (AliasModel { name: "%MYVIDEO%"@, env_key: Some("USERPROFILE"@), suffix: "Videos"@ })
            ||| m == (AliasModel { name: "%COMMONMUSIC%"@, env_key: Some("PUBLIC"@), suffix: "Music"@ })
            ||| m == (AliasModel { name: "%COMMONPICTURES%"@, env_key: Some("PUBLIC"@), suffix: "Pictures"@ })
            ||| m == (AliasModel { name: "%COMMONVIDEO%"@, env_key: Some("PUBLIC"@), suffix: "Videos"@ })
            ||| m == (AliasModel { name: "%launcherDIR%"@, env_key: None::<Seq<char>>, suffix: ""@ })
            ||| m == (AliasModel { name: "%CONFIGDIR%"@, env_key: None::<Seq<char>>, suffix: "CONFIG"@ })
        },
{
    let table = alias_table();
    assert(table.len() == 22);
    assert(table.contains(table[0]));
    assert(table.contains(table[1]));
    assert(table.contains(table[2]));
    assert(table.contains(table[3]));
    assert(table.contains(table[4]));
    assert(table.contains(table[5]));
    assert(table.contains(table[6]));
    assert(table.contains(table[7]));
    assert(table.contains(table[8]));
    assert(table.contains(table[9]));
    assert(table.contains(table[10]));
    assert(table.contains(table[11]));
    assert(table.contains(table[12]));
    assert(table.contains(table[13]));
    assert(table.contains(table[14]));
    assert(table.contains(table[15]));
    assert(table.contains(table[16]));
    assert(table.contains(table[17]));
    assert(table.contains(table[18]));
    assert(table.contains(table[19]));
    assert(table.contains(table[20]));
    assert(table.contains(table[21]));
    if table.contains(m) {
        let i = table.index_of(m);
        assert(table[i] == m);
    }
}

proof fn lemma_value_among(variables: Seq<(String, String)>, key: Seq<char>, from: int, i: int)
    requires
        0 <= from <= i < variables.len(),
        text::same_ignoring_ascii_case(variables[i].0@, key),
        forall|k: int|
            from <= k < i ==> !text::same_ignoring_ascii_case((#[trigger] variables[k]).0@, key),
    ensures
        value_among(variables, key, from) == Some(variables[i].1@),
    decreases i - from,
{
    if from < i {
        assert(!text::same_ignoring_ascii_case(variables[from].0@, key));
        lemma_value_among(variables, key, from + 1, i);
    }
}

proof fn lemma_value_missing(variables: Seq<(String, String)>, key: Seq<char>, from: int)
    requires
        0 <= from <= variables.len(),
        forall|k: int|
            from <= k < variables.len() ==> !text::same_ignoring_ascii_case(
                (#[trigger] variables[k]).0@,
                key,
            ),
    ensures
        value_among(variables, key, from) is None,
    decreases variables.len() - from,
{
    if from < variables.len() {
        assert(!text::same_ignoring_ascii_case(variables[from].0@, key));
        lemma_value_missing(variables, key, from + 1);
    }
}

/// A variable is known by its name, whatever the case of its letters, and the first one with
/// it counts.
pub proof fn lemma_variables_are_known_by_name(env: Environment, key: Seq<char>, i: int)
    ensures
        0 <= i < env.variables@.len() && text::same_ignoring_ascii_case(env.variables@[i].0@, key)
            && (forall|k: int|
            0 <= k < i ==> !text::same_ignoring_ascii_case((#[trigger] env.variables@[k]).0@, key))
            ==> value_of(env, key) == Some(env.variables@[i].1@),
        (forall|k: int|
            0 <= k < env.variables@.len() ==> !text::same_ignoring_ascii_case(
                (#[trigger] env.variables@[k]).0@,
                key,
            )) ==> value_of(env, key) is None,
{
    if 0 <= i < env.variables@.len() && text::same_ignoring_ascii_case(env.variables@[i].0@, key) && (
    forall|k: int|
        0 <= k < i ==> !text::same_ignoring_ascii_case((#[trigger] env.variables@[k]).0@, key)) {
        lemma_value_among(env.variables@, key, 0, i);
    }
    if forall|k: int|
        0 <= k < env.variables@.len() ==> !text::same_ignoring_ascii_case(
            (#[trigger] env.variables@[k]).0@,
            key,
        ) {
        lemma_value_missing(env.variables@, key, 0);
    }
}

/// An alias stands for the value of its variable, or for the folder of the program where it
/// has none, and for what it names below that. The folder of programs is that of the wider
/// programs where it is known, and that of the narrower ones stands beside it where its own
/// variable is missing.
pub proof fn lemma_alias_stands_for(alias: AliasModel, env: Environment)
    ensures
        ({
            let wide = text::same_ignoring_ascii_case(alias.name, "%PROGRAMFILES%"@);
            let narrow = text::same_ignoring_ascii_case(alias.name, "%PROGRAMFILES86%"@);
            let base = alias_base(alias, env);
            &&& !wide && !narrow && alias.env_key is Some ==> base == value_of(
                env,
                alias.env_key->0,
            )
            &&& !wide && !narrow && alias.env_key is None ==> base == Some(env.app_dir@)
            &&& wide && value_of(env, "ProgramW6432"@) is Some ==> base == value_of(
                env,
                "ProgramW6432"@,
            )
            &&& wide && value_of(env, "ProgramW6432"@) is None ==> base == value_of(
                env,
                "ProgramFiles"@,
            )
            &&& !wide && narrow && value_of(env, "ProgramFiles(x86)"@) is Some ==> base == value_of(
                env,
                "ProgramFiles(x86)"@,
            )
            &&& base is Some && alias.suffix.len() == 0 ==> alias_value(alias, env) == base
            &&& base is Some && alias.suffix.len() > 0 ==> alias_value(alias, env) == Some(
                winpath::joined(base->0, alias.suffix),
            )
            &&& base is None ==> alias_value(alias, env) is None
        }),
{
}

/// What stands in front of the first occurrence of a pattern stays, the occurrence is
/// replaced, and the rest is gone through in the same way.
pub proof fn lemma_first_occurrence_is_replaced(
    s: Seq<char>,
    pattern: Seq<char>,
    replacement: Seq<char>,
    i: int,
    p: int,
)
    requires
        pattern.len() > 0,
        0 <= i <= p,
        stands_ignoring_case(s, pattern, p),
        forall|k: int| i <= k < p ==> !#[trigger] stands_ignoring_case(s, pattern, k),
    ensures
        replaced(s, pattern, replacement, i) == s.subrange(i, p) + replacement + replaced(
            s,
            pattern,
            replacement,
            p + pattern.len(),
        ),
    decreases p - i,
{
    if i < p {
        assert(!stands_ignoring_case(s, pattern, i));
        lemma_first_occurrence_is_replaced(s, pattern, replacement, i + 1, p);
        let rest = replaced(s, pattern, replacement, p + pattern.len());
        assert(seq![s[i]] + (s.subrange(i + 1, p) + replacement + rest) =~= s.subrange(i, p)
            + replacement + rest);
    } else {
        assert(s.subrange(i, p) =~= Seq::<char>::empty());
        let rest = replaced(s, pattern, replacement, p + pattern.len());
        assert(s.subrange(i, p) + replacement + rest =~= replacement + rest);
    }
}

proof fn lemma_plain_text_stays(raw: Seq<char>, env: Environment, n: int)
    requires
        0 <= n <= alias_table().len(),
        !raw.contains('%'),
        forall|i: int|
            0 <= i < alias_table().len() ==> (#[trigger] alias_table()[i]).name.len() > 0
                && alias_table()[i].name[0] == '%',
    ensures
        expanded(raw, env, n) == raw,
    decreases n,
{
    if n > 0 {
        lemma_plain_text_stays(raw, env, n - 1);
        let name = alias_table()[n - 1].name;
        if let Some(path) = alias_value(alias_table()[n - 1], env) {
            assert forall|k: int| 0 <= k implies !stands_ignoring_case(raw, name, k) by {
                if stands_ignoring_case(raw, name, k) {
                    let part = raw.subrange(k, k + name.len());
                    text::lemma_same_but_for_case(part, name);
                    assert(part[0] == raw[k]);
                    assert(raw[k] == '%');
                    assert(raw.contains(raw[k]));
                }
            }
            lemma_nothing_to_replace(raw, name, path, 0);
            assert(raw.skip(0) =~= raw);
        }
    }
}

/// A text without a percent sign holds no alias and stays as it is.
pub proof fn lemma_no_alias_without_a_sign(raw: Seq<char>, env: Environment)
    requires
        !raw.contains('%'),
    ensures
        expanded_path(raw, env) == raw,
{
    reveal_strlit("%USERPROFILE%");
    reveal_strlit("%APPDATA%");
    reveal_strlit("%PROGRAMDATA%");
    reveal_strlit("%PUBLIC%");
    reveal_strlit("%PROGRAMFILES%");
    reveal_strlit("%PROGRAMFILES86%");
    reveal_strlit("%WINDIR%");
    reveal_strlit("%MYDOCUMENTS%");
    reveal_strlit("%MYDESKTOP%");
    reveal_strlit("%ALLDESKTOP%");
    reveal_strlit("%MYSTARTMENU%");
    reveal_strlit("%COMMONSTARTMENU%");
    reveal_strlit("%MYRECENTDOCS%");
    reveal_strlit("%MYFAVORITES%");
    reveal_strlit("%MYPICTURES%");
    reveal_strlit("%MYMUSIC%");
    reveal_strlit("%MYVIDEO%");
    reveal_strlit("%COMMONMUSIC%");
    reveal_strlit("%COMMONPICTURES%");
    reveal_strlit("%COMMONVIDEO%");
    reveal_strlit("%launcherDIR%");
    reveal_strlit("%CONFIGDIR%");
    lemma_plain_text_stays(raw, env, alias_table().len() as int);
}

/// What is chosen from the list of aliases is the name before the arrow, where it is one of
/// them; anything else is taken as it was typed.
pub proof fn lemma_names_before_the_arrow(name: Seq<char>, path: Seq<char>, value: Seq<char>)
    requires
        is_alias_name(text::trimmed(name)),
        !name.contains('-'),
    ensures
        chosen_name(name + "->"@ + path) == text::trimmed(name),
        !text::has_infix(value, "->"@) ==> chosen_name(value) == text::trimmed(value),
{
    reveal_strlit("->");
    let all = name + "->"@ + path;
    let n = name.len() as int;
    assert(all.subrange(n, n + 2) =~= "->"@);
    assert forall|k: int| 0 <= k < n implies !text::occurs_at(all, "->"@, k) by {
        if text::occurs_at(all, "->"@, k) {
            assert(all.subrange(k, k + 2)[0] == name[k]);
            assert(name.contains(name[k]));
        }
    }
    document::lemma_place_is(all, "->"@, 0, n);
    assert(all.take(n) =~= name);
    document::lemma_cut_at_the_first(value, "->"@);
    if let Some((front, back)) = document::cut(value, "->"@) {
        text::lemma_stands_in(front, "->"@, back);
    }
}

} // verus!
