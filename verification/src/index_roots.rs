//! The list of search folders as lines of text.

use crate::aliases;
use crate::aliases::Environment;
use crate::document;
use crate::places;
use crate::text;
use crate::types::IndexRoot;
use vstd::prelude::*;

verus! {

/// The depth of a search that goes all the way down.
pub const SEARCH_DEPTH_ALL: usize = usize::MAX;

// ---------------------------------------------------------------------------
// Fields
// ---------------------------------------------------------------------------

/// The fields of the rest of a line, where part of the first one is read already.
/// Fields stand between bars; a backslash takes the meaning from a bar or a
/// backslash behind it.
pub open spec fn fields(rest: Seq<char>, current: Seq<char>) -> Seq<Seq<char>>
    decreases rest.len(),
{
    if rest.len() == 0 {
        seq![text::trimmed(current)]
    } else if rest[0] == '\\' && rest.len() > 1 && (rest[1] == '|' || rest[1] == '\\') {
        fields(rest.skip(2), current.push(rest[1]))
    } else if rest[0] == '|' {
        seq![text::trimmed(current)] + fields(rest.skip(1), Seq::empty())
    } else {
        fields(rest.skip(1), current.push(rest[0]))
    }
}

/// A text with a backslash in front of every bar and backslash.
pub open spec fn escaped(s: Seq<char>) -> Seq<char>
    decreases s.len(),
{
    if s.len() == 0 {
        Seq::empty()
    } else if s[0] == '\\' || s[0] == '|' {
        seq!['\\', s[0]] + escaped(s.skip(1))
    } else {
        seq![s[0]] + escaped(s.skip(1))
    }
}

/// Escapes bars and backslashes.
pub fn escape_index_root_field(value: &str) -> (r: String)
    ensures
        r@ == escaped(value@),
{
    let s = text::chars_of(value);
    let mut out = String::new();
    let mut i: usize = 0;
    let ghost whole = escaped(s@);
    proof {
        assert(s@.skip(0) =~= s@);
    }
    while i < s.len()
        invariant
            i <= s.len(),
            whole == out@ + escaped(s@.skip(i as int)),
        decreases s.len() - i,
    {
        let c = s[i];
        let ghost before = out@;
        let ghost rest = s@.skip(i as int);
        if c == '\\' || c == '|' {
            out.push('\\');
        }
        out.push(c);
        proof {
            assert(rest[0] == c);
            assert(rest.skip(1) =~= s@.skip(i + 1));
            assert(before + escaped(rest) =~= out@ + escaped(s@.skip(i + 1)));
        }
        i += 1;
    }
    proof {
        assert(s@.skip(i as int) =~= Seq::<char>::empty());
        assert(whole =~= out@);
    }
    out
}

/// Takes a line apart into its fields.
pub fn split_index_root_line(line: &str) -> (r: Vec<String>)
    ensures
        text::texts(r@) == fields(line@, Seq::empty()),
        r@.len() > 0,
{
    let s = text::chars_of(line);
    let mut out: Vec<String> = Vec::new();
    let mut current: Vec<char> = Vec::new();
    let mut i: usize = 0;
    let ghost whole = fields(s@, Seq::empty());
    proof {
        assert(s@.skip(0) =~= s@);
        assert(text::texts(out@) =~= Seq::<Seq<char>>::empty());
        assert(current@ =~= Seq::<char>::empty());
        assert(whole =~= text::texts(out@) + fields(s@.skip(0), current@));
    }
    while i < s.len()
        invariant
            i <= s.len(),
            whole == text::texts(out@) + fields(s@.skip(i as int), current@),
        decreases s.len() - i,
    {
        let ghost rest = s@.skip(i as int);
        let c = s[i];
        proof {
            assert(rest[0] == c);
            assert(rest.skip(1) =~= s@.skip(i + 1));
        }
        if c == '\\' && i + 1 < s.len() && (s[i + 1] == '|' || s[i + 1] == '\\') {
            proof {
                assert(rest[1] == s@[i + 1]);
                assert(rest.skip(2) =~= s@.skip(i + 2));
            }
            current.push(s[i + 1]);
            i += 2;
        } else if c == '|' {
            let ghost before = out@;
            let ghost piece = text::trimmed(current@);
            out.push(text::string_of(text::trim_chars(current.as_slice())));
            current = Vec::new();
            proof {
                assert(text::texts(out@) =~= text::texts(before).push(piece));
                assert(current@ =~= Seq::<char>::empty());
                assert(text::texts(before) + (seq![piece] + fields(s@.skip(i + 1), Seq::empty()))
                    =~= text::texts(out@) + fields(s@.skip(i + 1), Seq::empty()));
            }
            i += 1;
        } else {
            proof {
                if rest.len() > 1 {
                    assert(rest[1] == s@[i + 1]);
                }
            }
            current.push(c);
            i += 1;
        }
    }
    let ghost before = out@;
    let ghost piece = text::trimmed(current@);
    out.push(text::string_of(text::trim_chars(current.as_slice())));
    proof {
        assert(s@.skip(i as int) =~= Seq::<char>::empty());
        assert(text::texts(out@) =~= text::texts(before).push(piece));
        assert(text::texts(out@) =~= whole);
    }
    out
}

/// Reading an escaped text goes on behind it as if the text had been read.
pub proof fn lemma_escaped_is_read(value: Seq<char>, rest: Seq<char>, current: Seq<char>)
    ensures
        fields(escaped(value) + rest, current) == fields(rest, current + value),
    decreases value.len(),
{
    if value.len() == 0 {
        assert(escaped(value) + rest =~= rest);
        assert(current + value =~= current);
    } else {
        let c = value[0];
        let tail = escaped(value.skip(1)) + rest;
        lemma_escaped_is_read(value.skip(1), rest, current.push(c));
        assert(current.push(c) + value.skip(1) =~= current + value);
        let all = escaped(value) + rest;
        if c == '\\' || c == '|' {
            assert(all =~= seq!['\\', c] + tail);
            assert(all.skip(2) =~= tail);
        } else {
            assert(all =~= seq![c] + tail);
            assert(all.skip(1) =~= tail);
        }
    }
}

/// An escaped text is read back as one field.
pub proof fn lemma_escape_round_trip(value: Seq<char>)
    ensures
        fields(escaped(value), Seq::empty()) == seq![text::trimmed(value)],
{
    let e = Seq::<char>::empty();
    lemma_escaped_is_read(value, e, e);
    assert(escaped(value) + e =~= escaped(value));
    assert(e + value =~= value);
}

// ---------------------------------------------------------------------------
// Depths and keywords
// ---------------------------------------------------------------------------

/// The depth that a number stands for: a negative one stands for all the way down.
pub fn normalize_search_depth(value: isize) -> (r: usize)
    ensures
        r == depth_of(value as int),
{
    if value < 0 {
        SEARCH_DEPTH_ALL
    } else {
        value as usize
    }
}

/// The depth that a number stands for.
pub open spec fn depth_of(value: int) -> int {
    if value < 0 {
        SEARCH_DEPTH_ALL as int
    } else {
        value
    }
}

/// How a depth is written.
pub open spec fn depth_shown(value: usize) -> Seq<char> {
    if value == SEARCH_DEPTH_ALL {
        "-1"@
    } else {
        text::decimal(value as int)
    }
}

/// Writes a depth.
pub fn depth_display(value: usize) -> (r: String)
    ensures
        r@ == depth_shown(value),
{
    if value == SEARCH_DEPTH_ALL {
        "-1".to_owned()
    } else {
        text::decimal_u64(value as u64)
    }
}

/// What separates keywords.
pub open spec fn parts_keywords(c: char) -> bool {
    c == ',' || c == ';' || c == '|' || c == ' '
}

/// The keyword that a piece of text stands for.
pub open spec fn keyword_of(piece: Seq<char>) -> Seq<char> {
    text::trimmed(text::fold(document::stripped_start(text::trimmed(piece), seq!['+'])))
}

/// The keywords of the first `n` pieces, each once.
pub open spec fn keywords_of(pieces: Seq<Seq<char>>, n: int) -> Seq<Seq<char>>
    decreases n,
{
    if n <= 0 {
        Seq::empty()
    } else {
        let before = keywords_of(pieces, n - 1);
        let keyword = keyword_of(pieces[n - 1]);
        if keyword.len() > 0 && !before.contains(keyword) {
            before.push(keyword)
        } else {
            before
        }
    }
}

/// The keywords of a text.
pub open spec fn keywords_in(value: Seq<char>) -> Seq<Seq<char>> {
    let pieces = text::runs(value, |c: char| !parts_keywords(c));
    keywords_of(pieces, pieces.len() as int)
}

/// The keywords of a text, each once and in the form in which they are compared.
pub fn normalize_keywords(value: &str) -> (r: Vec<String>)
    ensures
        text::texts(r@) == keywords_in(value@),
{
    let chars = text::chars_of(value);
    let keep = |c: char| -> (b: bool)
        ensures
            b == !parts_keywords(c),
        {
            !(c == ',' || c == ';' || c == '|' || c == ' ')
        };
    let pieces = text::split_runs(chars.as_slice(), keep, Ghost(|c: char| !parts_keywords(c)));
    let ghost all = text::texts(pieces@);
    let plus: Vec<char> = vec!['+'];
    let mut out: Vec<String> = Vec::new();
    let mut i: usize = 0;
    proof {
        assert(plus@ =~= seq!['+']);
        assert(text::texts(out@) =~= Seq::<Seq<char>>::empty());
    }
    while i < pieces.len()
        invariant
            i <= pieces.len(),
            all == text::texts(pieces@),
            plus@ == seq!['+'],
            text::texts(out@) == keywords_of(all, i as int),
        decreases pieces.len() - i,
    {
        let piece = text::chars_of(pieces[i].as_str());
        proof {
            assert(all[i as int] == piece@);
        }
        let plain = document::strip_start(text::trim_chars(piece.as_slice()), plus.as_slice());
        let keyword = text::trim_text(text::fold_text(text::string_of(plain).as_str()).as_str());
        let ghost before = out@;
        if !keyword.as_str().is_empty() && !text::contains_text(out.as_slice(), keyword.as_str()) {
            out.push(keyword);
            proof {
                assert(text::texts(out@) =~= text::texts(before).push(keyword@));
            }
        }
        i += 1;
    }
    proof {
        assert(all.len() == pieces@.len());
    }
    out
}

/// Keywords occur once each.
pub proof fn lemma_keywords_distinct(pieces: Seq<Seq<char>>, n: int)
    ensures
        keywords_of(pieces, n).no_duplicates(),
    decreases n,
{
    if n > 0 {
        lemma_keywords_distinct(pieces, n - 1);
        let before = keywords_of(pieces, n - 1);
        let all = keywords_of(pieces, n);
        assert forall|a: int, b: int|
            0 <= a < all.len() && 0 <= b < all.len() && a != b implies all[a] != all[b] by {
            if a < before.len() && b < before.len() {
                assert(before[a] != before[b]);
            } else if a < before.len() {
                assert(before.contains(before[a]));
            } else if b < before.len() {
                assert(before.contains(before[b]));
            }
        }
    }
}

// ---------------------------------------------------------------------------
// Lines
// ---------------------------------------------------------------------------

/// What the fields of a line set.
#[verifier::ext_equal]
pub struct RootSettings {
    pub enabled: bool,
    pub score: int,
    pub max_depth: int,
    pub keywords: Seq<Seq<char>>,
}

/// A field that turns a folder on or off.
pub open spec fn sets_enabled(part: Seq<char>) -> bool {
    document::setting_of(part) matches Some((key, value)) && key == "enabled"@ && (text::trimmed(
        value,
    ) == "0"@ || text::trimmed(value) == "1"@)
}

/// A number of 32 bits that a text notes.
pub open spec fn parsed_i32(s: Seq<char>) -> Option<int> {
    match text::parsed_int(s) {
        Some(n) => if i32::MIN <= n <= i32::MAX {
            Some(n)
        } else {
            None
        },
        None => None,
    }
}

/// A number of pointer size that a text notes.
pub open spec fn parsed_isize(s: Seq<char>) -> Option<int> {
    match text::parsed_int(s) {
        Some(n) => if isize::MIN <= n <= isize::MAX {
            Some(n)
        } else {
            None
        },
        None => None,
    }
}

/// A field that sets the score.
pub open spec fn sets_score(part: Seq<char>) -> bool {
    document::setting_of(part) matches Some((key, value)) && key == "score"@ && parsed_i32(
        text::trimmed(value),
    ) is Some
}

/// A field that sets the depth.
pub open spec fn sets_depth(part: Seq<char>) -> bool {
    document::setting_of(part) matches Some((key, value)) && key == "depth"@ && parsed_isize(
        text::trimmed(value),
    ) is Some
}

/// A field that sets the keywords.
pub open spec fn sets_keywords(part: Seq<char>) -> bool {
    document::setting_of(part) matches Some((key, value)) && key == "keywords"@
}

/// The value of a field.
pub open spec fn value_of(part: Seq<char>) -> Seq<char> {
    match document::setting_of(part) {
        Some((_, value)) => value,
        None => Seq::empty(),
    }
}

/// Settings after one more field.
pub open spec fn with_field(settings: RootSettings, part: Seq<char>) -> RootSettings {
    if sets_enabled(part) {
        RootSettings { enabled: text::trimmed(value_of(part)) == "1"@, ..settings }
    } else if sets_score(part) {
        RootSettings { score: parsed_i32(text::trimmed(value_of(part)))->0, ..settings }
    } else if sets_depth(part) {
        RootSettings {
            max_depth: depth_of(parsed_isize(text::trimmed(value_of(part)))->0),
            ..settings
        }
    } else if sets_keywords(part) {
        RootSettings { keywords: keywords_in(value_of(part)), ..settings }
    } else {
        settings
    }
}

/// The settings after the fields from the second to the `n`th.
pub open spec fn settings_of(parts: Seq<Seq<char>>, default_depth: usize, n: int) -> RootSettings
    decreases n,
{
    if n <= 1 {
        RootSettings {
            enabled: true,
            score: 100,
            max_depth: default_depth as int,
            keywords: Seq::empty(),
        }
    } else {
        with_field(settings_of(parts, default_depth, n - 1), parts[n - 1])
    }
}

/// A line without white space around it and without a byte order mark.
pub open spec fn bare_line(line: Seq<char>) -> Seq<char> {
    text::trimmed_start(document::stripped_start(text::trimmed(line), seq!['\u{feff}']))
}

/// The folder that a line names; none where it is blank, a comment or without a
/// name.
pub open spec fn named_folder(line: Seq<char>) -> Option<Seq<char>> {
    let bare = bare_line(line);
    if bare.len() == 0 || bare[0] == '#' {
        None
    } else {
        let raw = document::stripped(fields(bare, Seq::empty())[0], seq!['"']);
        if raw.len() == 0 {
            None
        } else {
            Some(raw)
        }
    }
}

/// A folder as a line describes it.
pub open spec fn describes(
    root: IndexRoot,
    line: Seq<char>,
    env: Environment,
    default_depth: usize,
) -> bool {
    let parts = fields(bare_line(line), Seq::empty());
    let settings = settings_of(parts, default_depth, parts.len() as int);
    &&& named_folder(line) == Some(root.raw@)
    &&& root.path matches Some(path) && path@ == aliases::expanded_path(root.raw@, env)
    &&& root.enabled == settings.enabled
    &&& root.score == settings.score
    &&& root.max_depth == settings.max_depth
    &&& root.label@.len() == 0
    &&& text::texts(root.keywords@) == settings.keywords
}

/// The settings of a folder as the code holds them.
struct Settings {
    enabled: bool,
    score: i32,
    max_depth: usize,
    keywords: Vec<String>,
}

impl Settings {
    spec fn is(&self, s: RootSettings) -> bool {
        &&& self.enabled == s.enabled
        &&& self.score == s.score
        &&& self.max_depth == s.max_depth
        &&& text::texts(self.keywords@) == s.keywords
    }

    fn apply(&mut self, part: &str)
        ensures
            forall|s: RootSettings| #[trigger]
                old(self).is(s) ==> final(self).is(with_field(s, part@)),
    {
        let chars = text::chars_of(part);
        if let Some((key, value)) = document::cut_chars(chars.as_slice(), "=") {
            let name = text::trim_chars(key);
            let plain = text::trim_chars(value);
            proof {
                reveal_strlit("enabled");
                reveal_strlit("score");
                reveal_strlit("depth");
                reveal_strlit("keywords");
                assert("enabled"@.len() == 7 && "score"@.len() == 5 && "depth"@.len() == 5
                    && "keywords"@.len() == 8);
                assert("score"@[0] != "depth"@[0]);
            }
            if document::is_text(name, "enabled") {
                if document::is_text(plain, "1") {
                    self.enabled = true;
                } else if document::is_text(plain, "0") {
                    proof {
                        reveal_strlit("0");
                        reveal_strlit("1");
                        assert("0"@[0] != "1"@[0]);
                    }
                    self.enabled = false;
                }
            } else if document::is_text(name, "score") {
                if let Some(n) = text::parse_i32(plain) {
                    self.score = n;
                }
            } else if document::is_text(name, "depth") {
                if let Some(n) = text::parse_isize(plain) {
                    self.max_depth = normalize_search_depth(n);
                }
            } else if document::is_text(name, "keywords") {
                self.keywords = normalize_keywords(text::string_of(value).as_str());
            }
        }
    }
}

fn trim_start<'a>(s: &'a [char]) -> (r: &'a [char])
    ensures
        r@ == text::trimmed_start(s@),
{
    let mut start: usize = 0;
    proof {
        assert(s@.subrange(0, s@.len() as int) =~= s@);
    }
    while start < s.len() && text::is_white_space(s[start])
        invariant
            start <= s.len(),
            text::trimmed_start(s@) == text::trimmed_start(
                s@.subrange(start as int, s@.len() as int),
            ),
        decreases s.len() - start,
    {
        proof {
            assert(s@.subrange(start as int, s@.len() as int).drop_first() =~= s@.subrange(
                start + 1,
                s@.len() as int,
            ));
        }
        start += 1;
    }
    vstd::slice::slice_subrange(s, start, s.len())
}

/// Reads a line. Blank lines, comments and lines without a name give nothing.
pub fn parse_index_root_line(line: &str, env: &Environment, default_depth: usize) -> (r: Option<
    IndexRoot,
>)
    ensures
        match r {
            None => named_folder(line@) is None,
            Some(root) => describes(root, line@, *env, default_depth),
        },
{
    let chars = text::chars_of(line);
    let mark: Vec<char> = vec!['\u{feff}'];
    let quote: Vec<char> = vec!['"'];
    proof {
        assert(mark@ =~= seq!['\u{feff}']);
        assert(quote@ =~= seq!['"']);
    }
    let unmarked = document::strip_start(text::trim_chars(chars.as_slice()), mark.as_slice());
    let bare = trim_start(unmarked);
    if bare.len() == 0 || bare[0] == '#' {
        return None;
    }
    let parts = split_index_root_line(text::string_of(bare).as_str());
    let ghost all = fields(bare_line(line@), Seq::empty());
    proof {
        assert(all[0] == parts@[0]@);
        assert(all.len() == parts@.len());
    }
    let first = text::chars_of(parts[0].as_str());
    let raw = text::string_of(document::strip_both(first.as_slice(), quote.as_slice()));
    if raw.as_str().is_empty() {
        return None;
    }
    let mut settings = Settings {
        enabled: true,
        score: 100,
        max_depth: default_depth,
        keywords: Vec::new(),
    };
    proof {
        assert(text::texts(settings.keywords@) =~= Seq::<Seq<char>>::empty());
    }
    let mut i: usize = 1;
    while i < parts.len()
        invariant
            1 <= i <= parts.len(),
            all == text::texts(parts@),
            settings.is(settings_of(all, default_depth, i as int)),
        decreases parts.len() - i,
    {
        proof {
            assert(all[i as int] == parts@[i as int]@);
        }
        settings.apply(parts[i].as_str());
        i += 1;
    }
    let path = aliases::expand_path(raw.as_str(), env);
    Some(
        IndexRoot {
            raw,
            path: Some(path),
            enabled: settings.enabled,
            score: settings.score,
            max_depth: settings.max_depth,
            label: String::new(),
            keywords: settings.keywords,
        },
    )
}

/// A folder with its path worked out anew.
pub fn normalized_index_root(root: IndexRoot, env: &Environment) -> (r: IndexRoot)
    ensures
        r.path matches Some(path) && path@ == aliases::expanded_path(root.raw@, *env),
        r == (IndexRoot { path: r.path, ..root }),
{
    let mut out = root;
    out.path = Some(aliases::expand_path(out.raw.as_str(), env));
    out
}

/// The lines say all that a folder needs: its state, its score and its depth.
pub open spec fn complete(line: Seq<char>) -> bool {
    let parts = fields(line, Seq::empty());
    &&& named_folder(line) is Some
    &&& exists|i: int| 1 <= i < parts.len() && sets_enabled(#[trigger] parts[i])
    &&& exists|i: int| 1 <= i < parts.len() && sets_score(#[trigger] parts[i])
    &&& exists|i: int| 1 <= i < parts.len() && sets_depth(#[trigger] parts[i])
}

/// What a field sets.
#[derive(Clone, Copy, PartialEq, Eq, Structural)]
enum FieldKind {
    Enabled,
    Score,
    Depth,
    Keywords,
    Other,
}

spec fn kind_is(kind: FieldKind, part: Seq<char>) -> bool {
    &&& (kind == FieldKind::Enabled) == sets_enabled(part)
    &&& (kind == FieldKind::Score) == sets_score(part)
    &&& (kind == FieldKind::Depth) == sets_depth(part)
    &&& (kind == FieldKind::Keywords) == sets_keywords(part)
}

fn kind_of(part: &str) -> (r: FieldKind)
    ensures
        kind_is(r, part@),
{
    let chars = text::chars_of(part);
    proof {
        reveal_strlit("enabled");
        reveal_strlit("score");
        reveal_strlit("depth");
        reveal_strlit("keywords");
        assert("enabled"@.len() == 7 && "score"@.len() == 5 && "depth"@.len() == 5
            && "keywords"@.len() == 8);
        assert("score"@[0] != "depth"@[0]);
    }
    match document::cut_chars(chars.as_slice(), "=") {
        None => FieldKind::Other,
        Some((key, value)) => {
            let name = text::trim_chars(key);
            let plain = text::trim_chars(value);
            if document::is_text(name, "enabled") {
                if document::is_text(plain, "0") || document::is_text(plain, "1") {
                    FieldKind::Enabled
                } else {
                    FieldKind::Other
                }
            } else if document::is_text(name, "score") {
                match text::parse_i32(plain) {
                    Some(_) => FieldKind::Score,
                    None => FieldKind::Other,
                }
            } else if document::is_text(name, "depth") {
                match text::parse_isize(plain) {
                    Some(_) => FieldKind::Depth,
                    None => FieldKind::Other,
                }
            } else if document::is_text(name, "keywords") {
                FieldKind::Keywords
            } else {
                FieldKind::Other
            }
        },
    }
}

fn has_all_fields(line: &str) -> (r: bool)
    ensures
        r == ({
            let parts = fields(line@, Seq::empty());
            &&& exists|i: int| 1 <= i < parts.len() && sets_enabled(#[trigger] parts[i])
            &&& exists|i: int| 1 <= i < parts.len() && sets_score(#[trigger] parts[i])
            &&& exists|i: int| 1 <= i < parts.len() && sets_depth(#[trigger] parts[i])
        }),
{
    let parts = split_index_root_line(line);
    let ghost all = fields(line@, Seq::empty());
    let mut has_enabled = false;
    let mut has_score = false;
    let mut has_depth = false;
    let mut i: usize = 1;
    proof {
        assert(all.len() == parts@.len());
    }
    while i < parts.len()
        invariant
            1 <= i <= parts.len(),
            all == text::texts(parts@),
            has_enabled == (exists|k: int| 1 <= k < i && sets_enabled(#[trigger] all[k])),
            has_score == (exists|k: int| 1 <= k < i && sets_score(#[trigger] all[k])),
            has_depth == (exists|k: int| 1 <= k < i && sets_depth(#[trigger] all[k])),
        decreases parts.len() - i,
    {
        proof {
            assert(all[i as int] == parts@[i as int]@);
        }
        let kind = kind_of(parts[i].as_str());
        match kind {
            FieldKind::Enabled => {
                has_enabled = true;
            },
            FieldKind::Score => {
                has_score = true;
            },
            FieldKind::Depth => {
                has_depth = true;
            },
            FieldKind::Keywords => {},
            FieldKind::Other => {},
        }
        proof {
            if has_enabled && kind == FieldKind::Enabled {
                assert(sets_enabled(all[i as int]));
            }
            if has_score && kind == FieldKind::Score {
                assert(sets_score(all[i as int]));
            }
            if has_depth && kind == FieldKind::Depth {
                assert(sets_depth(all[i as int]));
            }
        }
        i += 1;
    }
    has_enabled && has_score && has_depth
}

/// Reads a line that says all that a folder needs.
pub fn parse_hydrated_index_root_line(line: &str, env: &Environment, default_depth: usize) -> (r:
    Option<IndexRoot>)
    ensures
        match r {
            None => !complete(line@),
            Some(root) => complete(line@) && describes(root, line@, *env, default_depth),
        },
{
    match parse_index_root_line(line, env, default_depth) {
        None => None,
        Some(root) => {
            if has_all_fields(line) {
                Some(root)
            } else {
                None
            }
        },
    }
}

/// Whether a line was written by a state.
pub open spec fn state_digit(enabled: bool) -> Seq<char> {
    if enabled {
        "1"@
    } else {
        "0"@
    }
}

/// The line of a folder.
pub open spec fn line_of(root: IndexRoot) -> Seq<char> {
    escaped(root.raw@) + " | enabled="@ + state_digit(root.enabled) + " | score="@ + text::decimal(
        root.score as int,
    ) + " | depth="@ + depth_shown(root.max_depth) + (if root.keywords@.len() > 0 {
        " | keywords="@ + text::join(text::texts(root.keywords@), ","@)
    } else {
        Seq::empty()
    })
}

/// Writes the line of a folder.
pub fn index_root_line(root: &IndexRoot) -> (r: String)
    ensures
        r@ == line_of(*root),
{
    let mut out = text::cat7(
        escape_index_root_field(root.raw.as_str()).as_str(),
        " | enabled=",
        if root.enabled {
            "1"
        } else {
            "0"
        },
        " | score=",
        text::decimal_i64(root.score as i64).as_str(),
        " | depth=",
        depth_display(root.max_depth).as_str(),
    );
    if root.keywords.len() > 0 {
        let ghost before = out@;
        let keywords = text::join_texts(root.keywords.as_slice(), ",");
        out.append(" | keywords=");
        out.append(keywords.as_str());
        proof {
            assert(out@ =~= line_of(*root));
        }
    } else {
        proof {
            assert(out@ =~= line_of(*root));
        }
    }
    out
}

/// The settings of a folder in one line, without its name.
pub open spec fn compact_value(root: IndexRoot) -> Seq<char> {
    "enabled="@ + state_digit(root.enabled) + " | score="@ + text::decimal(root.score as int)
        + " | depth="@ + depth_shown(root.max_depth) + (if root.keywords@.len() > 0 {
        " | keywords="@ + text::join(text::texts(root.keywords@), ","@)
    } else {
        Seq::empty()
    })
}

/// The settings of a folder in one line.
pub fn compact_index_root_value(root: &IndexRoot) -> (r: String)
    ensures
        r@ == compact_value(*root),
{
    let mut out = text::cat6(
        "enabled=",
        if root.enabled {
            "1"
        } else {
            "0"
        },
        " | score=",
        text::decimal_i64(root.score as i64).as_str(),
        " | depth=",
        depth_display(root.max_depth).as_str(),
    );
    if root.keywords.len() > 0 {
        let keywords = text::join_texts(root.keywords.as_slice(), ",");
        out.append(" | keywords=");
        out.append(keywords.as_str());
    }
    proof {
        assert(out@ =~= compact_value(*root));
    }
    out
}

// ---------------------------------------------------------------------------
// Lists of folders
// ---------------------------------------------------------------------------

/// Which lines say all that a folder needs.
pub open spec fn complete_lines(all: Seq<Seq<char>>) -> Seq<bool> {
    Seq::new(all.len(), |i: int| complete(all[i]))
}

/// The folders of a text: one for each complete line, in order.
pub fn read_index_roots(content: &str, env: &Environment, default_depth: usize) -> (r: Vec<
    IndexRoot,
>)
    ensures
        ({
            let all = text::lines(content@);
            let rows = document::marked(complete_lines(all), all.len() as int);
            &&& r@.len() == rows.len()
            &&& forall|k: int|
                0 <= k < rows.len() ==> describes(
                    #[trigger] r@[k],
                    all[rows[k]],
                    *env,
                    default_depth,
                )
        }),
{
    let lines = text::split_lines(content);
    let ghost all = text::lines(content@);
    let ghost marks = complete_lines(all);
    let mut out: Vec<IndexRoot> = Vec::new();
    let mut i: usize = 0;
    proof {
        assert(all.len() == lines@.len());
    }
    while i < lines.len()
        invariant
            i <= lines.len(),
            all == text::texts(lines@),
            all.len() == lines@.len(),
            marks == complete_lines(all),
            out@.len() == document::marked(marks, i as int).len(),
            forall|k: int|
                0 <= k < out@.len() ==> describes(
                    #[trigger] out@[k],
                    all[document::marked(marks, i as int)[k]],
                    *env,
                    default_depth,
                ),
        decreases lines.len() - i,
    {
        let ghost rows = document::marked(marks, i as int);
        let ghost before = out@;
        proof {
            assert(all[i as int] == lines@[i as int]@);
            assert(marks[i as int] == complete(all[i as int]));
        }
        if let Some(root) = parse_hydrated_index_root_line(lines[i].as_str(), env, default_depth) {
            out.push(root);
            proof {
                let longer = document::marked(marks, i + 1);
                assert forall|k: int| 0 <= k < out@.len() implies describes(
                    #[trigger] out@[k],
                    all[longer[k]],
                    *env,
                    default_depth,
                ) by {
                    if k < before.len() {
                        assert(out@[k] == before[k]);
                        assert(longer[k] == rows[k]);
                    }
                }
            }
        }
        i += 1;
    }
    out
}

/// Which lines name a folder.
pub open spec fn naming_lines(all: Seq<Seq<char>>) -> Seq<bool> {
    Seq::new(all.len(), |i: int| named_folder(all[i]) is Some)
}

/// The folders that come with the program: one for each line of its list that names
/// one.
pub fn default_index_roots(content: &str, env: &Environment, default_depth: usize) -> (r: Vec<
    IndexRoot,
>)
    ensures
        ({
            let all = text::lines(content@);
            let rows = document::marked(naming_lines(all), all.len() as int);
            &&& r@.len() == rows.len()
            &&& forall|k: int|
                0 <= k < rows.len() ==> describes(
                    #[trigger] r@[k],
                    all[rows[k]],
                    *env,
                    default_depth,
                )
        }),
{
    let lines = text::split_lines(content);
    let ghost all = text::lines(content@);
    let ghost marks = naming_lines(all);
    let mut out: Vec<IndexRoot> = Vec::new();
    let mut i: usize = 0;
    proof {
        assert(all.len() == lines@.len());
    }
    while i < lines.len()
        invariant
            i <= lines.len(),
            all == text::texts(lines@),
            all.len() == lines@.len(),
            marks == naming_lines(all),
            out@.len() == document::marked(marks, i as int).len(),
            forall|k: int|
                0 <= k < out@.len() ==> describes(
                    #[trigger] out@[k],
                    all[document::marked(marks, i as int)[k]],
                    *env,
                    default_depth,
                ),
        decreases lines.len() - i,
    {
        let ghost rows = document::marked(marks, i as int);
        let ghost before = out@;
        proof {
            assert(all[i as int] == lines@[i as int]@);
            assert(marks[i as int] == (named_folder(all[i as int]) is Some));
        }
        if let Some(root) = parse_index_root_line(lines[i].as_str(), env, default_depth) {
            out.push(normalized_index_root(root, env));
            proof {
                let longer = document::marked(marks, i + 1);
                assert forall|k: int| 0 <= k < out@.len() implies describes(
                    #[trigger] out@[k],
                    all[longer[k]],
                    *env,
                    default_depth,
                ) by {
                    if k < before.len() {
                        assert(out@[k] == before[k]);
                        assert(longer[k] == rows[k]);
                    }
                }
            }
        }
        i += 1;
    }
    out
}

/// The first of the folders that come with the program that has the same name.
pub fn default_index_root_for<'a>(root: &IndexRoot, defaults: &'a [IndexRoot]) -> (r: Option<
    &'a IndexRoot,
>)
    ensures
        match r {
            Some(found) => exists|i: int|
                0 <= i < defaults@.len() && *found == #[trigger] defaults@[i]
                    && text::same_ignoring_ascii_case(defaults@[i].raw@, root.raw@) && forall|
                    k: int,
                |
                    0 <= k < i ==> !text::same_ignoring_ascii_case(
                        (#[trigger] defaults@[k]).raw@,
                        root.raw@,
                    ),
            None => forall|k: int|
                0 <= k < defaults@.len() ==> !text::same_ignoring_ascii_case(
                    (#[trigger] defaults@[k]).raw@,
                    root.raw@,
                ),
        },
{
    let mut i: usize = 0;
    while i < defaults.len()
        invariant
            i <= defaults.len(),
            forall|k: int|
                0 <= k < i ==> !text::same_ignoring_ascii_case(
                    (#[trigger] defaults@[k]).raw@,
                    root.raw@,
                ),
        decreases defaults.len() - i,
    {
        if aliases::same_name(defaults[i].raw.as_str(), root.raw.as_str()) {
            proof {
                assert(defaults@[i as int] == defaults@[i as int]);
            }
            return Some(&defaults[i]);
        }
        i += 1;
    }
    None
}

/// The first folder with a name among those from `from` on.
pub open spec fn default_value(root: IndexRoot, defaults: Seq<IndexRoot>, from: int) -> Seq<char>
    decreases defaults.len() - from,
{
    if from < 0 || from >= defaults.len() {
        Seq::empty()
    } else if text::same_ignoring_ascii_case(defaults[from].raw@, root.raw@) {
        compact_value(defaults[from])
    } else {
        default_value(root, defaults, from + 1)
    }
}

/// The settings with which a folder comes with the program; nothing where it does
/// not.
pub fn default_index_root_value(root: &IndexRoot, defaults: &[IndexRoot]) -> (r: String)
    ensures
        r@ == default_value(*root, defaults@, 0),
{
    let mut i: usize = 0;
    while i < defaults.len()
        invariant
            i <= defaults.len(),
            default_value(*root, defaults@, 0) == default_value(*root, defaults@, i as int),
        decreases defaults.len() - i,
    {
        if aliases::same_name(defaults[i].raw.as_str(), root.raw.as_str()) {
            return compact_index_root_value(&defaults[i]);
        }
        i += 1;
    }
    String::new()
}

/// The fields from the second to the `n`th that say nothing known.
pub open spec fn unknown_fields(parts: Seq<Seq<char>>, n: int) -> Seq<Seq<char>>
    decreases n,
{
    if n <= 1 {
        Seq::empty()
    } else {
        let part = parts[n - 1];
        let before = unknown_fields(parts, n - 1);
        if sets_enabled(part) || sets_score(part) || sets_depth(part) || sets_keywords(part) {
            before
        } else {
            before.push(part)
        }
    }
}

/// The unknown fields of a line.
pub open spec fn extras_of(line: Seq<char>) -> Seq<Seq<char>> {
    let parts = fields(line, Seq::empty());
    unknown_fields(parts, parts.len() as int)
}

/// The form in which the names of folders are compared.
pub open spec fn name_key(raw: Seq<char>) -> Seq<char> {
    text::fold(text::trimmed(raw))
}

/// The unknown fields of the first `n` lines for a folder.
pub open spec fn extras_for(all: Seq<Seq<char>>, key: Seq<char>, n: int) -> Seq<Seq<char>>
    decreases n,
{
    if n <= 0 {
        Seq::empty()
    } else {
        let before = extras_for(all, key, n - 1);
        match named_folder(all[n - 1]) {
            Some(raw) => if name_key(raw) == key {
                before + extras_of(all[n - 1])
            } else {
                before
            },
            None => before,
        }
    }
}

/// Fields, each behind a bar.
pub open spec fn behind_bars(extras: Seq<Seq<char>>, n: int) -> Seq<char>
    decreases n,
{
    if n <= 0 {
        Seq::empty()
    } else {
        behind_bars(extras, n - 1) + " | "@ + extras[n - 1]
    }
}

/// The line of a folder with the unknown fields that the text had for it.
pub open spec fn kept_line(root: IndexRoot, all: Seq<Seq<char>>) -> Seq<char> {
    let extras = extras_for(all, name_key(root.raw@), all.len() as int);
    line_of(root) + behind_bars(extras, extras.len() as int)
}

/// The lines of folders.
pub open spec fn kept_lines(roots: Seq<IndexRoot>, all: Seq<Seq<char>>) -> Seq<Seq<char>> {
    Seq::new(roots.len(), |i: int| kept_line(roots[i], all))
}

fn collect_unknown_fields(line: &str) -> (r: Vec<String>)
    ensures
        text::texts(r@) == extras_of(line@),
{
    let parts = split_index_root_line(line);
    let ghost all = fields(line@, Seq::empty());
    let mut out: Vec<String> = Vec::new();
    let mut i: usize = 1;
    proof {
        assert(all.len() == parts@.len());
        assert(text::texts(out@) =~= Seq::<Seq<char>>::empty());
    }
    while i < parts.len()
        invariant
            1 <= i <= parts.len(),
            all == text::texts(parts@),
            text::texts(out@) == unknown_fields(all, i as int),
        decreases parts.len() - i,
    {
        let ghost before = out@;
        proof {
            assert(all[i as int] == parts@[i as int]@);
        }
        match kind_of(parts[i].as_str()) {
            FieldKind::Other => {
                out.push(parts[i].clone());
                proof {
                    assert(text::texts(out@) =~= text::texts(before).push(all[i as int]));
                }
            },
            _ => {},
        }
        i += 1;
    }
    out
}

fn collect_extras(lines: &[String], key: &str, env: &Environment, default_depth: usize) -> (r: Vec<
    String,
>)
    ensures
        text::texts(r@) == extras_for(text::texts(lines@), key@, lines@.len() as int),
{
    let ghost all = text::texts(lines@);
    let mut out: Vec<String> = Vec::new();
    let mut i: usize = 0;
    proof {
        assert(text::texts(out@) =~= Seq::<Seq<char>>::empty());
    }
    while i < lines.len()
        invariant
            i <= lines.len(),
            all == text::texts(lines@),
            text::texts(out@) == extras_for(all, key@, i as int),
        decreases lines.len() - i,
    {
        proof {
            assert(all[i as int] == lines@[i as int]@);
        }
        if let Some(root) = parse_index_root_line(lines[i].as_str(), env, default_depth) {
            let own = text::fold_text(text::trim_text(root.raw.as_str()).as_str());
            if text::same_text(own.as_str(), key) {
                let more = collect_unknown_fields(lines[i].as_str());
                document::append_texts(&mut out, more.as_slice());
            }
        }
        i += 1;
    }
    out
}

fn line_with_extras(
    root: &IndexRoot,
    lines: &[String],
    env: &Environment,
    default_depth: usize,
) -> (r: String)
    ensures
        r@ == kept_line(*root, text::texts(lines@)),
{
    let ghost all = text::texts(lines@);
    let key = text::fold_text(text::trim_text(root.raw.as_str()).as_str());
    let extras = collect_extras(lines, key.as_str(), env, default_depth);
    let ghost found = text::texts(extras@);
    let mut out = index_root_line(root);
    let mut i: usize = 0;
    proof {
        assert(all.len() == lines@.len());
        assert(found.len() == extras@.len());
        assert(line_of(*root) + behind_bars(found, 0) =~= line_of(*root));
    }
    while i < extras.len()
        invariant
            i <= extras.len(),
            found == text::texts(extras@),
            out@ == line_of(*root) + behind_bars(found, i as int),
        decreases extras.len() - i,
    {
        proof {
            assert(found[i as int] == extras@[i as int]@);
        }
        out.append(" | ");
        out.append(extras[i].as_str());
        i += 1;
        proof {
            assert(out@ =~= line_of(*root) + behind_bars(found, i as int));
        }
    }
    out
}

/// A text with its complete lines exchanged for those of the given folders. Fields
/// that say nothing known stay with their folder, and all other lines stay where
/// they are.
pub fn merge_index_roots_text(
    existing: &str,
    roots: &[IndexRoot],
    env: &Environment,
    default_depth: usize,
) -> (r: String)
    ensures
        r@ == document::merged(
            existing@,
            complete_lines(text::lines(existing@)),
            kept_lines(roots@, text::lines(existing@)),
        ),
{
    let lines = text::split_lines(existing);
    let ghost all = text::lines(existing@);
    let mut replacement: Vec<String> = Vec::new();
    let mut i: usize = 0;
    proof {
        assert(all.len() == lines@.len());
        assert(text::texts(replacement@) =~= kept_lines(roots@, all).take(0));
    }
    while i < roots.len()
        invariant
            i <= roots.len(),
            all == text::texts(lines@),
            text::texts(replacement@) == kept_lines(roots@, all).take(i as int),
        decreases roots.len() - i,
    {
        let ghost before = replacement@;
        let line = line_with_extras(&roots[i], lines.as_slice(), env, default_depth);
        replacement.push(line);
        i += 1;
        proof {
            assert(text::texts(replacement@) =~= text::texts(before).push(line@));
            assert(text::texts(replacement@) =~= kept_lines(roots@, all).take(i as int));
        }
    }
    let mut known: Vec<bool> = Vec::new();
    let mut k: usize = 0;
    while k < lines.len()
        invariant
            k <= lines.len(),
            all == text::texts(lines@),
            all.len() == lines@.len(),
            known@ == complete_lines(all).take(k as int),
        decreases lines.len() - k,
    {
        proof {
            assert(all[k as int] == lines@[k as int]@);
        }
        let is_known = match parse_hydrated_index_root_line(lines[k].as_str(), env, default_depth) {
            Some(_) => true,
            None => false,
        };
        known.push(is_known);
        k += 1;
        proof {
            assert(known@ =~= complete_lines(all).take(k as int));
        }
    }
    proof {
        assert(known@ =~= complete_lines(all));
        assert(text::texts(replacement@) =~= kept_lines(roots@, all));
    }
    document::merge_known_lines(existing, known.as_slice(), replacement.as_slice())
}


// ---------------------------------------------------------------------------
// Lines are read back
// ---------------------------------------------------------------------------

/// A text without bars and backslashes.
spec fn is_plain(s: Seq<char>) -> bool {
    !s.contains('|') && !s.contains('\\')
}

/// What stands between two fields.
spec fn bar() -> Seq<char> {
    seq![' ', '|', ' ']
}

proof fn lemma_plain_is_escaped(s: Seq<char>)
    requires
        is_plain(s),
    ensures
        escaped(s) == s,
    decreases s.len(),
{
    if s.len() > 0 {
        let rest = s.skip(1);
        assert(s.contains(s[0]));
        assert(is_plain(rest)) by {
            assert forall|i: int| 0 <= i < rest.len() implies rest[i] != '|' && rest[i] != '\\' by {
                assert(s.contains(s[i + 1]));
            }
        }
        lemma_plain_is_escaped(rest);
        assert(seq![s[0]] + rest =~= s);
    } else {
        assert(escaped(s) =~= s);
    }
}

/// A bar ends the field that is being read.
proof fn lemma_bar_ends(current: Seq<char>, rest: Seq<char>)
    ensures
        fields(bar() + rest, current) == seq![text::trimmed(current.push(' '))] + fields(
            rest,
            seq![' '],
        ),
{
    let all = bar() + rest;
    let one = all.skip(1);
    let two = one.skip(1);
    assert(all[0] == ' ');
    assert(one[0] == '|');
    assert(two[0] == ' ');
    assert(two.skip(1) =~= rest);
    assert(fields(all, current) == fields(one, current.push(' ')));
    assert(fields(one, current.push(' ')) == seq![text::trimmed(current.push(' '))] + fields(
        two,
        Seq::empty(),
    ));
    assert(Seq::<char>::empty().push(' ') =~= seq![' ']);
    assert(fields(two, Seq::empty()) == fields(rest, seq![' ']));
}

/// A plain field between bars.
proof fn lemma_field_between(value: Seq<char>, rest: Seq<char>)
    requires
        is_plain(value),
        value.len() > 0,
        !text::white_space(value[0]) && !text::white_space(value.last()),
    ensures
        fields(value + bar() + rest, seq![' ']) == seq![value] + fields(rest, seq![' ']),
{
    lemma_plain_is_escaped(value);
    lemma_escaped_is_read(value, bar() + rest, seq![' ']);
    assert(value + bar() + rest =~= escaped(value) + (bar() + rest));
    lemma_bar_ends(seq![' '] + value, rest);
    text::lemma_trimmed_padded(value);
}

/// A text without bars and without two backslashes in a row.
pub open spec fn reads_as_is(s: Seq<char>) -> bool {
    &&& !s.contains('|')
    &&& forall|i: int| 0 <= i < s.len() - 1 ==> !(#[trigger] s[i] == '\\' && s[i + 1] == '\\')
}

/// The last field.
proof fn lemma_field_last(value: Seq<char>, current: Seq<char>)
    requires
        reads_as_is(value),
    ensures
        fields(value, current) == seq![text::trimmed(current + value)],
    decreases value.len(),
{
    if value.len() == 0 {
        assert(current + value =~= current);
    } else {
        let rest = value.skip(1);
        assert(value.contains(value[0]));
        assert(reads_as_is(rest)) by {
            assert(!rest.contains('|')) by {
                assert forall|i: int| 0 <= i < rest.len() implies rest[i] != '|' by {
                    assert(value.contains(value[i + 1]));
                }
            }
            assert forall|i: int| 0 <= i < rest.len() - 1 implies !(#[trigger] rest[i] == '\\'
                && rest[i + 1] == '\\') by {
                assert(!(value[i + 1] == '\\' && value[i + 2] == '\\'));
            }
        }
        if value.len() > 1 {
            assert(!(value[0] == '\\' && value[1] == '\\'));
            assert(value.contains(value[1]));
        }
        lemma_field_last(rest, current.push(value[0]));
        assert(current.push(value[0]) + rest =~= current + value);
    }
}

/// A setting is read back.
pub proof fn lemma_setting(key: Seq<char>, value: Seq<char>)
    requires
        !key.contains('='),
        text::trimmed(key) == key,
    ensures
        document::setting_of(key + "="@ + value) == Some((key, value)),
{
    reveal_strlit("=");
    let part = key + "="@ + value;
    let n = key.len() as int;
    assert(part.subrange(n, n + 1) =~= "="@);
    assert forall|k: int| 0 <= k < n implies !text::occurs_at(part, "="@, k) by {
        if text::occurs_at(part, "="@, k) {
            assert(part.subrange(k, k + 1)[0] == key[k]);
            assert(key.contains(key[k]));
        }
    }
    document::lemma_place_is(part, "="@, 0, n);
    assert(part.take(n) =~= key);
    assert(part.skip(n + 1) =~= value);
}

/// A keyword in the form in which they are kept: one that reading leaves as it is, with
/// nothing in it that separates keywords.
pub open spec fn is_keyword(s: Seq<char>) -> bool {
    &&& s.len() > 0
    &&& keyword_of(s) == s
    &&& forall|i: int| 0 <= i < s.len() ==> !parts_keywords(#[trigger] s[i])
}

proof fn lemma_keywords_stay(all: Seq<Seq<char>>, n: int)
    requires
        0 <= n <= all.len(),
        all.no_duplicates(),
        forall|i: int| 0 <= i < all.len() ==> is_keyword(#[trigger] all[i]),
    ensures
        keywords_of(all, n) == all.take(n),
    decreases n,
{
    if n > 0 {
        lemma_keywords_stay(all, n - 1);
        let before = all.take(n - 1);
        assert(is_keyword(all[n - 1]));
        assert(!before.contains(all[n - 1])) by {
            if before.contains(all[n - 1]) {
                let i = choose|i: int| 0 <= i < before.len() && before[i] == all[n - 1];
                assert(all[i] == all[n - 1]);
            }
        }
        assert(all.take(n) =~= before.push(all[n - 1]));
    } else {
        assert(all.take(0) =~= Seq::<Seq<char>>::empty());
    }
}

/// Keywords are read back from the text that lists them.
pub proof fn lemma_keywords_round_trip(all: Seq<Seq<char>>)
    requires
        all.no_duplicates(),
        forall|i: int| 0 <= i < all.len() ==> is_keyword(#[trigger] all[i]),
    ensures
        keywords_in(text::join(all, ","@)) == all,
{
    reveal_strlit(",");
    assert(","@ =~= seq![',']);
    let keep = |c: char| !parts_keywords(c);
    assert forall|i: int| 0 <= i < all.len() implies (#[trigger] all[i]).len() > 0 by {
        assert(is_keyword(all[i]));
    }
    assert forall|i: int, k: int| 0 <= i < all.len() && 0 <= k < all[i].len() implies keep(
        #[trigger] all[i][k],
    ) by {
        assert(is_keyword(all[i]));
    }
    text::lemma_runs_joined(all, ',', keep);
    lemma_keywords_stay(all, all.len() as int);
    assert(all.take(all.len() as int) =~= all);
}


/// The settings of a folder, one field each.
spec fn setting_fields(root: IndexRoot) -> Seq<Seq<char>> {
    let three = seq![
        "enabled"@ + "="@ + state_digit(root.enabled),
        "score"@ + "="@ + text::decimal(root.score as int),
        "depth"@ + "="@ + depth_shown(root.max_depth),
    ];
    if root.keywords@.len() > 0 {
        three.push("keywords"@ + "="@ + text::join(text::texts(root.keywords@), ","@))
    } else {
        three
    }
}

/// A folder that a line can hold as it is.
pub open spec fn is_writable(root: IndexRoot) -> bool {
    let raw = root.raw@;
    let keywords = text::texts(root.keywords@);
    &&& raw.len() > 0 && text::trimmed(raw) == raw
    &&& raw[0] != '#' && raw[0] != '\u{feff}' && raw[0] != '"' && raw.last() != '"'
    &&& root.max_depth <= isize::MAX || root.max_depth == SEARCH_DEPTH_ALL
    &&& keywords.no_duplicates()
    &&& forall|i: int| 0 <= i < keywords.len() ==> is_keyword(#[trigger] keywords[i])
    &&& reads_as_is(text::join(keywords, ","@))
}

/// A setting as a field: plain, and without white space at its ends.
proof fn lemma_setting_is_plain(key: Seq<char>, value: Seq<char>)
    requires
        is_plain(key) && is_plain(value),
        key.len() > 0 && !text::white_space(key[0]),
        value.len() > 0 && !text::white_space(value.last()),
    ensures
        is_plain(key + "="@ + value),
        (key + "="@ + value).len() > 0,
        !text::white_space((key + "="@ + value)[0]),
        !text::white_space((key + "="@ + value).last()),
{
    reveal_strlit("=");
    let part = key + "="@ + value;
    assert(part[0] == key[0]);
    assert(part.last() == value.last());
    assert forall|i: int| 0 <= i < part.len() implies part[i] != '|' && part[i] != '\\' by {
        if i < key.len() {
            assert(part[i] == key[i]);
            assert(key.contains(key[i]));
        } else if i > key.len() {
            assert(part[i] == value[i - key.len() - 1]);
            assert(value.contains(value[i - key.len() - 1]));
        }
    }
}

/// The notation of a number is plain.
proof fn lemma_decimal_is_plain(n: int)
    ensures
        is_plain(text::decimal(n)),
        text::decimal(n).len() > 0,
        !text::white_space(text::decimal(n)[0]),
        !text::white_space(text::decimal(n).last()),
{
    text::lemma_decimal_chars(n);
    let s = text::decimal(n);
    assert(text::is_digit(s[0]) || s[0] == '-');
    assert(text::is_digit(s[s.len() - 1]) || s[s.len() - 1] == '-');
    assert forall|i: int| 0 <= i < s.len() implies s[i] != '|' && s[i] != '\\' by {
        assert(text::is_digit(s[i]) || s[i] == '-');
    }
}

/// The names of the settings are plain.
proof fn lemma_names_are_plain()
    ensures
        is_plain("enabled"@) && is_plain("score"@) && is_plain("depth"@) && is_plain(
            "keywords"@,
        ),
        "enabled"@.len() == 7 && "score"@.len() == 5 && "depth"@.len() == 5 && "keywords"@.len()
            == 8,
        "score"@ != "depth"@,
        !text::white_space("enabled"@[0]) && !text::white_space("score"@[0])
            && !text::white_space("depth"@[0]) && !text::white_space("keywords"@[0]),
        !"enabled"@.contains('=') && !"score"@.contains('=') && !"depth"@.contains('=')
            && !"keywords"@.contains('='),
        text::trimmed("enabled"@) == "enabled"@,
        text::trimmed("score"@) == "score"@,
        text::trimmed("depth"@) == "depth"@,
        text::trimmed("keywords"@) == "keywords"@,
{
    reveal_strlit("enabled");
    reveal_strlit("score");
    reveal_strlit("depth");
    reveal_strlit("keywords");
    assert("score"@[0] != "depth"@[0]);
    text::lemma_trimmed_stays("enabled"@);
    text::lemma_trimmed_stays("score"@);
    text::lemma_trimmed_stays("depth"@);
    text::lemma_trimmed_stays("keywords"@);
}

/// The values of the settings are plain.
proof fn lemma_values_are_plain(root: IndexRoot)
    ensures
        is_plain(state_digit(root.enabled)) && state_digit(root.enabled).len() > 0
            && !text::white_space(state_digit(root.enabled).last()),
        is_plain(depth_shown(root.max_depth)) && depth_shown(root.max_depth).len() > 0
            && !text::white_space(depth_shown(root.max_depth).last()),
        text::trimmed(state_digit(root.enabled)) == state_digit(root.enabled),
        text::trimmed(depth_shown(root.max_depth)) == depth_shown(root.max_depth),
        text::trimmed(text::decimal(root.score as int)) == text::decimal(root.score as int),
{
    reveal_strlit("0");
    reveal_strlit("1");
    reveal_strlit("-1");
    lemma_decimal_is_plain(root.max_depth as int);
    lemma_decimal_is_plain(root.score as int);
    text::lemma_trimmed_stays(state_digit(root.enabled));
    text::lemma_trimmed_stays(depth_shown(root.max_depth));
    text::lemma_trimmed_stays(text::decimal(root.score as int));
}

/// The last keyword ends the list of them.
pub proof fn lemma_keywords_end(all: Seq<Seq<char>>)
    requires
        all.len() > 0,
        forall|i: int| 0 <= i < all.len() ==> is_keyword(#[trigger] all[i]),
    ensures
        text::join(all, ","@).len() > 0,
        !text::white_space(text::join(all, ","@).last()),
{
    let last = all[all.len() - 1];
    assert(is_keyword(last));
    text::lemma_trimmed_idempotent(
        text::fold(document::stripped_start(text::trimmed(last), seq!['+'])),
    );
    text::lemma_trimmed_ends(last);
    assert(text::join(all, ","@).last() == last.last());
}


/// The fields of a line are the name of the folder and its settings.
proof fn lemma_line_fields(root: IndexRoot)
    requires
        is_writable(root),
    ensures
        fields(line_of(root), Seq::empty()) == seq![root.raw@] + setting_fields(root),
{
    let raw = root.raw@;
    let score = text::decimal(root.score as int);
    let keywords = text::join(text::texts(root.keywords@), ","@);
    let a = "enabled"@ + "="@ + state_digit(root.enabled);
    let b = "score"@ + "="@ + score;
    let c = "depth"@ + "="@ + depth_shown(root.max_depth);
    let d = "keywords"@ + "="@ + keywords;
    let e = Seq::<char>::empty();
    let listed = root.keywords@.len() > 0;
    let end = if listed {
        bar() + d
    } else {
        e
    };
    reveal_strlit(" | enabled=");
    reveal_strlit(" | score=");
    reveal_strlit(" | depth=");
    reveal_strlit(" | keywords=");
    reveal_strlit("enabled");
    reveal_strlit("score");
    reveal_strlit("depth");
    reveal_strlit("keywords");
    reveal_strlit("=");
    assert(" | enabled="@ =~= bar() + "enabled"@ + "="@);
    assert(" | score="@ =~= bar() + "score"@ + "="@);
    assert(" | depth="@ =~= bar() + "depth"@ + "="@);
    assert(" | keywords="@ =~= bar() + "keywords"@ + "="@);
    let after_c = c + end;
    let after_b = b + bar() + after_c;
    let after_a = a + bar() + after_b;
    assert(line_of(root) =~= escaped(raw) + (bar() + after_a));
    lemma_names_are_plain();
    lemma_values_are_plain(root);
    lemma_decimal_is_plain(root.score as int);
    lemma_setting_is_plain("enabled"@, state_digit(root.enabled));
    lemma_setting_is_plain("score"@, score);
    lemma_setting_is_plain("depth"@, depth_shown(root.max_depth));
    text::lemma_trimmed_ends(raw);
    text::lemma_trimmed_padded(raw);
    lemma_escaped_is_read(raw, bar() + after_a, e);
    assert(e + raw =~= raw);
    lemma_bar_ends(raw, after_a);
    lemma_field_between(a, after_b);
    lemma_field_between(b, after_c);
    if listed {
        assert(text::texts(root.keywords@).len() > 0);
        lemma_keywords_end(text::texts(root.keywords@));
        assert(c + end =~= c + bar() + d);
        lemma_field_between(c, d);
        assert(reads_as_is(d)) by {
            let n = "keywords"@.len() as int + 1;
            assert forall|i: int| 0 <= i < d.len() implies d[i] != '|' by {
                if i >= n {
                    assert(d[i] == keywords[i - n]);
                    assert(keywords.contains(keywords[i - n]));
                }
            }
            assert forall|i: int| 0 <= i < d.len() - 1 implies !(#[trigger] d[i] == '\\' && d[i + 1]
                == '\\') by {
                if i >= n {
                    assert(d[i] == keywords[i - n]);
                    assert(d[i + 1] == keywords[i - n + 1]);
                }
            }
        }
        lemma_field_last(d, seq![' ']);
        assert(d[0] == "keywords"@[0]);
        assert(d.last() == keywords.last());
        text::lemma_trimmed_padded(d);
        assert(seq![raw] + (seq![a] + (seq![b] + (seq![c] + seq![d]))) =~= seq![raw]
            + setting_fields(root));
    } else {
        assert(c + end =~= c);
        lemma_plain_is_escaped(c);
        lemma_escaped_is_read(c, e, seq![' ']);
        assert(escaped(c) + e =~= c);
        text::lemma_trimmed_padded(c);
        assert(seq![raw] + (seq![a] + (seq![b] + seq![c])) =~= seq![raw] + setting_fields(root));
    }
}

/// A line as it was written has nothing to be taken away around it.
proof fn lemma_line_is_bare(root: IndexRoot)
    requires
        is_writable(root),
    ensures
        bare_line(line_of(root)) == line_of(root),
        line_of(root).len() > 0,
        line_of(root)[0] != '#',
{
    let line = line_of(root);
    let raw = root.raw@;
    text::lemma_trimmed_ends(raw);
    lemma_values_are_plain(root);
    assert(escaped(raw).len() > 0 && (escaped(raw)[0] == raw[0] || escaped(raw)[0] == '\\'));
    assert(line[0] == escaped(raw)[0]);
    if root.keywords@.len() > 0 {
        assert(text::texts(root.keywords@).len() > 0);
        lemma_keywords_end(text::texts(root.keywords@));
        assert(line.last() == text::join(text::texts(root.keywords@), ","@).last());
    } else {
        assert(line.last() == depth_shown(root.max_depth).last());
    }
    text::lemma_trimmed_stays(line);
    assert(!seq!['\u{feff}'].contains(line[0]));
}

/// The settings of a line are those of the folder that it was written for.
proof fn lemma_line_settings(root: IndexRoot, default_depth: usize)
    requires
        is_writable(root),
    ensures
        ({
            let parts = seq![root.raw@] + setting_fields(root);
            let settings = settings_of(parts, default_depth, parts.len() as int);
            &&& settings.enabled == root.enabled
            &&& settings.score == root.score
            &&& settings.max_depth == root.max_depth
            &&& settings.keywords == text::texts(root.keywords@)
            &&& sets_enabled(parts[1])
            &&& sets_score(parts[2])
            &&& sets_depth(parts[3])
        }),
{
    let parts = seq![root.raw@] + setting_fields(root);
    let keywords = text::texts(root.keywords@);
    lemma_names_are_plain();
    lemma_values_are_plain(root);
    lemma_setting("enabled"@, state_digit(root.enabled));
    lemma_setting("score"@, text::decimal(root.score as int));
    lemma_setting("depth"@, depth_shown(root.max_depth));
    text::lemma_decimal_round_trip(root.score as int);
    text::lemma_decimal_round_trip(root.max_depth as int);
    text::lemma_decimal_round_trip(-1);
    reveal_strlit("0");
    reveal_strlit("1");
    reveal_strlit("-1");
    assert("0"@[0] != "1"@[0]);
    assert("-1"@ =~= text::decimal(-1)) by {
        assert(text::decimal_nat(1) =~= seq!['1']);
    }
    assert(parts[1] == "enabled"@ + "="@ + state_digit(root.enabled));
    assert(parts[2] == "score"@ + "="@ + text::decimal(root.score as int));
    assert(parts[3] == "depth"@ + "="@ + depth_shown(root.max_depth));
    let s1 = settings_of(parts, default_depth, 1);
    let s2 = settings_of(parts, default_depth, 2);
    let s3 = settings_of(parts, default_depth, 3);
    let s4 = settings_of(parts, default_depth, 4);
    assert(s2 == with_field(s1, parts[1]));
    assert(s3 == with_field(s2, parts[2]));
    assert(s4 == with_field(s3, parts[3]));
    assert(s4.enabled == root.enabled && s4.score == root.score && s4.max_depth
        == root.max_depth);
    if root.keywords@.len() > 0 {
        let list = text::join(keywords, ","@);
        lemma_setting("keywords"@, list);
        lemma_keywords_round_trip(keywords);
        assert(parts[4] == "keywords"@ + "="@ + list);
        assert(settings_of(parts, default_depth, 5) == with_field(s4, parts[4]));
    } else {
        assert(keywords =~= Seq::<Seq<char>>::empty());
    }
}

/// A folder is read back from its line: the line says all that a folder needs, it names
/// the folder, and whatever it is read as has the settings of the folder.
pub proof fn lemma_root_line_round_trip(root: IndexRoot, env: Environment, default_depth: usize)
    requires
        is_writable(root),
    ensures
        complete(line_of(root)),
        named_folder(line_of(root)) == Some(root.raw@),
        forall|found: IndexRoot| #[trigger]
            describes(found, line_of(root), env, default_depth) ==> found.raw@ == root.raw@
                && found.enabled == root.enabled && found.score == root.score && found.max_depth
                == root.max_depth && text::texts(found.keywords@) == text::texts(root.keywords@),
{
    let line = line_of(root);
    let raw = root.raw@;
    lemma_line_is_bare(root);
    lemma_line_fields(root);
    lemma_line_settings(root, default_depth);
    let parts = seq![raw] + setting_fields(root);
    assert(fields(line, Seq::empty()) == parts);
    assert(parts[0] == raw);
    assert(!seq!['"'].contains(raw[0]) && !seq!['"'].contains(raw.last()));
    assert(document::stripped(raw, seq!['"']) == raw);
}

// ---------------------------------------------------------------------------
// What the fields of a line set
// ---------------------------------------------------------------------------

/// A folder without settings is searched, with a score of a hundred and the usual depth, by
/// everybody.
pub proof fn lemma_a_folder_without_settings(parts: Seq<Seq<char>>, default_depth: usize)
    requires
        parts.len() <= 1,
    ensures
        ({
            let settings = settings_of(parts, default_depth, parts.len() as int);
            settings.enabled && settings.score == 100 && settings.max_depth == default_depth
                && settings.keywords.len() == 0
        }),
{
}

proof fn lemma_setting_names()
    ensures
        text::trimmed("enabled"@) == "enabled"@ && !"enabled"@.contains('='),
        text::trimmed("score"@) == "score"@ && !"score"@.contains('='),
        text::trimmed("depth"@) == "depth"@ && !"depth"@.contains('='),
        text::trimmed("keywords"@) == "keywords"@ && !"keywords"@.contains('='),
        "enabled"@ != "score"@ && "enabled"@ != "depth"@ && "enabled"@ != "keywords"@ && "score"@
            != "depth"@ && "score"@ != "keywords"@ && "depth"@ != "keywords"@,
{
    reveal_strlit("enabled");
    reveal_strlit("score");
    reveal_strlit("depth");
    reveal_strlit("keywords");
    text::lemma_trimmed_stays("enabled"@);
    text::lemma_trimmed_stays("score"@);
    text::lemma_trimmed_stays("depth"@);
    text::lemma_trimmed_stays("keywords"@);
    assert("enabled"@[0] == 'e' && "score"@[0] == 's' && "depth"@[0] == 'd' && "keywords"@[0]
        == 'k');
}

/// Each setting sets what it names and nothing else: whether a folder is searched, its score,
/// its depth, and its keywords. What sets nothing leaves all as it was.
pub proof fn lemma_what_settings_set(settings: RootSettings, part: Seq<char>, value: Seq<char>)
    ensures
        with_field(settings, "enabled"@ + "="@ + "1"@) == (RootSettings { enabled: true, ..settings }),
        with_field(settings, "enabled"@ + "="@ + "0"@) == (RootSettings {
            enabled: false,
            ..settings
        }),
        with_field(settings, "keywords"@ + "="@ + value) == (RootSettings {
            keywords: keywords_in(value),
            ..settings
        }),
        document::setting_of(part) is None ==> with_field(settings, part) == settings,
        document::setting_of(part) matches Some((key, _)) ==> key != "enabled"@ && key != "score"@
            && key != "depth"@ && key != "keywords"@ ==> with_field(settings, part) == settings,
{
    lemma_setting_names();
    lemma_setting("enabled"@, "1"@);
    lemma_setting("enabled"@, "0"@);
    lemma_setting("keywords"@, value);
    reveal_strlit("0");
    reveal_strlit("1");
    text::lemma_trimmed_stays("0"@);
    text::lemma_trimmed_stays("1"@);
    assert("0"@[0] == '0' && "1"@[0] == '1');
}

/// The score and the depth of a folder are the numbers that are written; below nothing, a depth
/// means all the way down.
pub proof fn lemma_what_numbers_set(settings: RootSettings, score: i32, depth: isize)
    ensures
        with_field(settings, "score"@ + "="@ + text::decimal(score as int)) == (RootSettings {
            score: score as int,
            ..settings
        }),
        depth >= 0 ==> with_field(settings, "depth"@ + "="@ + text::decimal(depth as int)) == (
        RootSettings { max_depth: depth as int, ..settings }),
        depth < 0 ==> with_field(settings, "depth"@ + "="@ + text::decimal(depth as int)) == (
        RootSettings { max_depth: usize::MAX as int, ..settings }),
{
    lemma_setting_names();
    lemma_setting("score"@, text::decimal(score as int));
    lemma_setting("depth"@, text::decimal(depth as int));
    text::lemma_decimal_round_trip(score as int);
    text::lemma_decimal_round_trip(depth as int);
    text::lemma_decimal_chars(score as int);
    text::lemma_decimal_chars(depth as int);
    let a = text::decimal(score as int);
    let b = text::decimal(depth as int);
    assert(text::is_digit(a[0]) || a[0] == '-');
    assert(text::is_digit(a[a.len() - 1]) || a[a.len() - 1] == '-');
    assert(text::is_digit(b[0]) || b[0] == '-');
    assert(text::is_digit(b[b.len() - 1]) || b[b.len() - 1] == '-');
    text::lemma_trimmed_stays(a);
    text::lemma_trimmed_stays(b);
}

/// The last of two settings counts: settings are taken in the order in which they stand.
pub proof fn lemma_settings_in_order(parts: Seq<Seq<char>>, part: Seq<char>, default_depth: usize)
    requires
        parts.len() > 0,
    ensures
        settings_of(parts.push(part), default_depth, parts.len() as int + 1) == with_field(
            settings_of(parts, default_depth, parts.len() as int),
            part,
        ),
{
    lemma_settings_of_front(parts, part, default_depth, parts.len() as int);
}

proof fn lemma_settings_of_front(
    parts: Seq<Seq<char>>,
    part: Seq<char>,
    default_depth: usize,
    n: int,
)
    requires
        0 <= n <= parts.len(),
    ensures
        settings_of(parts.push(part), default_depth, n) == settings_of(parts, default_depth, n),
    decreases n,
{
    if n > 1 {
        lemma_settings_of_front(parts, part, default_depth, n - 1);
    }
}

/// Every piece of a list of keywords is a keyword, without its plus signs and folded, unless
/// that leaves nothing; and nothing else is.
pub proof fn lemma_every_keyword_is_read(pieces: Seq<Seq<char>>, n: int, keyword: Seq<char>)
    requires
        0 <= n <= pieces.len(),
    ensures
        keywords_of(pieces, n).contains(keyword) <==> keyword.len() > 0 && exists|i: int|
            0 <= i < n && text::trimmed(
                text::fold(
                    document::stripped_start(text::trimmed(#[trigger] pieces[i]), seq!['+']),
                ),
            ) == keyword,
        keywords_of(pieces, n).no_duplicates(),
    decreases n,
{
    if n > 0 {
        lemma_every_keyword_is_read(pieces, n - 1, keyword);
        let before = keywords_of(pieces, n - 1);
        let own = keyword_of(pieces[n - 1]);
        if own.len() > 0 && !before.contains(own) {
            let after = before.push(own);
            assert(after.last() == own);
            if before.contains(keyword) {
                let k = choose|k: int| 0 <= k < before.len() && before[k] == keyword;
                assert(after[k] == keyword);
            }
            if after.contains(keyword) && keyword != own {
                let k = choose|k: int| 0 <= k < after.len() && after[k] == keyword;
                assert(before[k] == keyword);
            }
        }
        if keyword.len() > 0 && keyword == own {
            assert(keyword_of(pieces[n - 1]) == keyword);
        }
    }
}

/// Commas, semicolons, bars and spaces stand between keywords, and nothing else does.
pub proof fn lemma_what_parts_keywords(c: char)
    ensures
        parts_keywords(c) <==> c == ',' || c == ';' || c == '|' || c == ' ',
        text::ascii_alphanumeric(c) ==> !parts_keywords(c),
        !parts_keywords('+') && !parts_keywords('[') && !parts_keywords(']') && !parts_keywords('-')
            && !parts_keywords('_'),
{
}

/// Empty lines and comments name no folder.
pub proof fn lemma_lines_without_a_folder(line: Seq<char>, comment: Seq<char>)
    ensures
        text::trimmed(line).len() == 0 ==> named_folder(line) is None,
        named_folder(seq!['#'] + comment) is None,
        named_folder(line) matches Some(raw) ==> raw.len() > 0 && raw[0] != '"' && raw.last()
            != '"',
{
    let marks = seq!['\u{feff}'];
    if text::trimmed(line).len() == 0 {
        document::lemma_stripping_takes_the_ends(text::trimmed(line), marks);
    }
    let remark = seq!['#'] + comment;
    text::lemma_trimming_takes_white_space(remark);
    let (i, j) = choose|i: int, j: int|
        0 <= i <= j <= remark.len() && #[trigger] remark.subrange(i, j) == text::trimmed(remark) && (
        forall|k: int| 0 <= k < i || j <= k < remark.len() ==> text::white_space(
            #[trigger] remark[k],
        ));
    assert(!text::white_space(remark[0])) by {
        text::lemma_white_space('#');
    }
    assert(i == 0 && j > 0);
    let plain = text::trimmed(remark);
    assert(plain[0] == '#');
    assert(marks[0] == '\u{feff}');
    assert(!marks.contains('#'));
    assert(document::stripped_start(plain, marks) == plain);
    assert(text::trimmed_start(plain) == plain);
    let quotes = seq!['"'];
    assert(quotes[0] == '"');
    let first = fields(bare_line(line), Seq::empty())[0];
    document::lemma_stripping_takes_the_ends(first, quotes);
}

/// The settings that a folder comes with are those of the first folder of its name, whatever
/// the case of its letters.
pub proof fn lemma_first_default_counts(root: IndexRoot, defaults: Seq<IndexRoot>, from: int)
    requires
        0 <= from <= defaults.len(),
    ensures
        (forall|i: int|
            from <= i < defaults.len() ==> !text::same_ignoring_ascii_case(
                (#[trigger] defaults[i]).raw@,
                root.raw@,
            )) ==> default_value(root, defaults, from).len() == 0,
        forall|i: int|
            from <= i < defaults.len() && text::same_ignoring_ascii_case(
                (#[trigger] defaults[i]).raw@,
                root.raw@,
            ) && (forall|k: int|
                from <= k < i ==> !text::same_ignoring_ascii_case(
                    (#[trigger] defaults[k]).raw@,
                    root.raw@,
                )) ==> default_value(root, defaults, from) == compact_value(defaults[i]),
    decreases defaults.len() - from,
{
    if from < defaults.len() && !text::same_ignoring_ascii_case(defaults[from].raw@, root.raw@) {
        lemma_first_default_counts(root, defaults, from + 1);
    }
}

/// The fields that are kept as they are, are those behind the name that set nothing, in their
/// order.
pub proof fn lemma_other_fields_stay(parts: Seq<Seq<char>>, n: int)
    requires
        0 <= n <= parts.len(),
    ensures
        ({
            let wanted = |p: int|
                p >= 1 && !sets_enabled(parts[p]) && !sets_score(parts[p]) && !sets_depth(parts[p])
                    && !sets_keywords(parts[p]);
            exists|from: Seq<int>| #[trigger]
                places::picks_all(from, n, wanted) && unknown_fields(parts, n) == Seq::new(
                    from.len(),
                    |i: int| parts[from[i]],
                )
        }),
    decreases n,
{
    let wanted = |p: int|
        p >= 1 && !sets_enabled(parts[p]) && !sets_score(parts[p]) && !sets_depth(parts[p])
            && !sets_keywords(parts[p]);
    if n > 0 {
        lemma_other_fields_stay(parts, n - 1);
        let from = choose|from: Seq<int>| #[trigger]
            places::picks_all(from, n - 1, wanted) && unknown_fields(parts, n - 1) == Seq::new(
                from.len(),
                |i: int| parts[from[i]],
            );
        places::lemma_pick_one_more(from, n - 1, wanted);
        let next = if wanted(n - 1) {
            from.push(n - 1)
        } else {
            from
        };
        assert(places::picks_all(next, n, wanted));
        assert(unknown_fields(parts, n) =~= Seq::new(next.len(), |i: int| parts[next[i]]));
    } else {
        let from = Seq::<int>::empty();
        assert(places::picks_all(from, n, wanted));
        assert(unknown_fields(parts, n) =~= Seq::new(from.len(), |i: int| parts[from[i]]));
    }
}

/// The other fields of a folder are kept from every line that names it, in their order, whatever
/// the case of the name; lines of other folders leave them alone.
pub proof fn lemma_other_fields_of_a_folder(
    all: Seq<Seq<char>>,
    line: Seq<char>,
    key: Seq<char>,
)
    ensures
        ({
            let n = all.len() as int;
            let before = extras_for(all, key, n);
            let after = extras_for(all.push(line), key, n + 1);
            &&& named_folder(line) is None ==> after == before
            &&& named_folder(line) matches Some(raw) ==> (text::fold(text::trimmed(raw)) != key
                ==> after == before) && (text::fold(text::trimmed(raw)) == key ==> after == before
                + extras_of(line))
        }),
        extras_for(Seq::empty(), key, 0).len() == 0,
{
    lemma_extras_of_front(all, line, key, all.len() as int);
}

proof fn lemma_extras_of_front(all: Seq<Seq<char>>, line: Seq<char>, key: Seq<char>, n: int)
    requires
        0 <= n <= all.len(),
    ensures
        extras_for(all.push(line), key, n) == extras_for(all, key, n),
    decreases n,
{
    if n > 0 {
        lemma_extras_of_front(all, line, key, n - 1);
    }
}

/// A line that the program writes says all that there is to say of a folder; one without a
/// score, a depth or the mark of being searched does not.
pub proof fn lemma_lines_are_complete(root: IndexRoot, default_depth: usize, line: Seq<char>)
    requires
        is_writable(root),
    ensures
        complete(line_of(root)),
        complete(line) ==> named_folder(line) is Some,
        fields(line, Seq::empty()).len() < 2 ==> !complete(line),
        (forall|i: int|
            1 <= i < fields(line, Seq::empty()).len() ==> !sets_score(
                #[trigger] fields(line, Seq::empty())[i],
            )) ==> !complete(line),
        (forall|i: int|
            1 <= i < fields(line, Seq::empty()).len() ==> !sets_depth(
                #[trigger] fields(line, Seq::empty())[i],
            )) ==> !complete(line),
        (forall|i: int|
            1 <= i < fields(line, Seq::empty()).len() ==> !sets_enabled(
                #[trigger] fields(line, Seq::empty())[i],
            )) ==> !complete(line),
{
    lemma_line_fields(root);
    lemma_line_is_bare(root);
    lemma_line_settings(root, default_depth);
    let parts = seq![root.raw@] + setting_fields(root);
    assert(fields(line_of(root), Seq::empty()) == parts);
    assert(parts.len() >= 4);
    assert(parts[0] == root.raw@);
    let quotes = seq!['"'];
    assert(quotes[0] == '"');
    assert(!quotes.contains(root.raw@[0]) && !quotes.contains(root.raw@.last()));
    assert(document::stripped_start(root.raw@, quotes) == root.raw@);
    assert(document::stripped(root.raw@, quotes) == root.raw@);
    assert(named_folder(line_of(root)) is Some);
    assert(sets_enabled(parts[1]) && sets_score(parts[2]) && sets_depth(parts[3]));
}

} // verus!
