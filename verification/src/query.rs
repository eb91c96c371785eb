//! What a typed query asks for.

use crate::aliases;
use crate::aliases::Environment;
use crate::document;
use crate::text;
use crate::types;
use crate::types::{DirectoryBrowseSpec, SearchQueryMode, SearchQuerySpec};
use crate::winpath;
use vstd::prelude::*;

verus! {

// ---------------------------------------------------------------------------
// Words
// ---------------------------------------------------------------------------

/// A word that asks for a keyword: it begins with a plus sign.
pub open spec fn is_marked(word: Seq<char>) -> bool {
    word.len() > 0 && word[0] == '+'
}

/// The keyword that a marked word asks for.
pub open spec fn marked_keyword(word: Seq<char>) -> Seq<char> {
    text::trimmed(text::fold(text::trimmed(word.drop_first())))
}

/// A marked word that asks for all matches.
pub open spec fn asks_for_all(word: Seq<char>) -> bool {
    is_marked(word) && text::trimmed(word.drop_first()).len() > 0 && text::same_ignoring_ascii_case(
        marked_keyword(word),
        "sall"@,
    )
}

/// The words of the first `n` that are searched for.
pub open spec fn plain_words(all: Seq<Seq<char>>, n: int) -> Seq<Seq<char>>
    decreases n,
{
    if n <= 0 {
        Seq::empty()
    } else if is_marked(all[n - 1]) {
        plain_words(all, n - 1)
    } else {
        plain_words(all, n - 1).push(all[n - 1])
    }
}

/// The keywords that the first `n` words ask for, each once.
pub open spec fn keywords_asked(all: Seq<Seq<char>>, n: int) -> Seq<Seq<char>>
    decreases n,
{
    if n <= 0 {
        Seq::empty()
    } else {
        let before = keywords_asked(all, n - 1);
        let word = all[n - 1];
        let keyword = marked_keyword(word);
        if is_marked(word) && text::trimmed(word.drop_first()).len() > 0 && !asks_for_all(word)
            && keyword.len() > 0 && !before.contains(keyword) {
            before.push(keyword)
        } else {
            before
        }
    }
}

/// One of the first `n` words asks for all matches.
pub open spec fn all_asked(all: Seq<Seq<char>>, n: int) -> bool {
    exists|i: int| 0 <= i < n && asks_for_all(#[trigger] all[i])
}

/// A query taken apart.
pub struct QueryModel {
    pub raw: Seq<char>,
    pub search_text: Seq<char>,
    pub modifiers: Seq<Seq<char>>,
    pub show_all: bool,
}

/// A query taken apart: the text to search for, the keywords, and whether all
/// matches are asked for.
pub open spec fn query_model(raw: Seq<char>) -> QueryModel {
    let all = text::words(text::trimmed(raw));
    let n = all.len() as int;
    QueryModel {
        raw: text::trimmed(raw),
        search_text: text::join(plain_words(all, n), " "@),
        modifiers: keywords_asked(all, n),
        show_all: all_asked(all, n),
    }
}

struct QueryParts {
    raw: String,
    search_text: String,
    modifiers: Vec<String>,
    show_all: bool,
}

fn split_query(raw: &str) -> (r: QueryParts)
    ensures
        ({
            let m = query_model(raw@);
            &&& r.raw@ == m.raw
            &&& r.search_text@ == m.search_text
            &&& text::texts(r.modifiers@) == m.modifiers
            &&& r.show_all == m.show_all
        }),
{
    let trimmed = text::trim_text(raw);
    let words = text::split_whitespace(trimmed.as_str());
    let ghost all = text::words(text::trimmed(raw@));
    let mut plain: Vec<String> = Vec::new();
    let mut modifiers: Vec<String> = Vec::new();
    let mut show_all = false;
    let mut i: usize = 0;
    proof {
        assert(all.len() == words@.len());
        assert(text::texts(plain@) =~= Seq::<Seq<char>>::empty());
        assert(text::texts(modifiers@) =~= Seq::<Seq<char>>::empty());
    }
    while i < words.len()
        invariant
            i <= words.len(),
            all == text::texts(words@),
            all.len() == words@.len(),
            text::texts(plain@) == plain_words(all, i as int),
            text::texts(modifiers@) == keywords_asked(all, i as int),
            show_all == all_asked(all, i as int),
        decreases words.len() - i,
    {
        let word = text::chars_of(words[i].as_str());
        proof {
            assert(all[i as int] == word@);
        }
        if word.len() > 0 && word[0] == '+' {
            proof {
                assert(word@.subrange(1, word@.len() as int) =~= word@.drop_first());
            }
            let rest = vstd::slice::slice_subrange(word.as_slice(), 1, word.len());
            let name = text::trim_chars(rest);
            if name.len() > 0 {
                let keyword = text::trim_text(
                    text::fold_text(text::string_of(name).as_str()).as_str(),
                );
                if aliases::same_name(keyword.as_str(), "sall") {
                    show_all = true;
                    proof {
                        assert(asks_for_all(all[i as int]));
                    }
                } else {
                    let ghost before = modifiers@;
                    if !keyword.as_str().is_empty() && !text::contains_text(
                        modifiers.as_slice(),
                        keyword.as_str(),
                    ) {
                        modifiers.push(keyword);
                        proof {
                            assert(text::texts(modifiers@) =~= text::texts(before).push(keyword@));
                        }
                    }
                }
            }
        } else {
            let ghost before = plain@;
            plain.push(words[i].clone());
            proof {
                assert(text::texts(plain@) =~= text::texts(before).push(all[i as int]));
            }
        }
        proof {
            if all_asked(all, i + 1) && !all_asked(all, i as int) {
                let k = choose|k: int| 0 <= k < i + 1 && asks_for_all(#[trigger] all[k]);
                assert(k == i);
            }
            if all_asked(all, i as int) {
                let k = choose|k: int| 0 <= k < i && asks_for_all(#[trigger] all[k]);
                assert(asks_for_all(all[k]));
            }
        }
        i += 1;
    }
    QueryParts {
        raw: trimmed,
        search_text: text::join_texts(plain.as_slice(), " "),
        modifiers,
        show_all,
    }
}

// ---------------------------------------------------------------------------
// Directories
// ---------------------------------------------------------------------------

/// A text that names a directory: a network share, a drive or an alias comes first.
pub open spec fn names_directory(value: Seq<char>) -> bool {
    ||| text::has_prefix(value, "\\\\"@)
    ||| value.len() >= 2 && winpath::is_letter(value[0]) && value[1] == ':'
    ||| exists|i: int|
        0 <= i < aliases::alias_table().len() && aliases::stands_ignoring_case(
            value,
            (#[trigger] aliases::alias_table()[i]).name,
            0,
        )
}

/// Whether a text names a directory.
pub fn looks_like_directory_query(value: &str) -> (r: bool)
    ensures
        r == names_directory(value@),
{
    let chars = text::chars_of(value);
    let share = text::chars_of("\\\\");
    if text::begins_with(chars.as_slice(), share.as_slice()) {
        return true;
    }
    if chars.len() >= 2 && (('A' <= chars[0] && chars[0] <= 'Z') || ('a' <= chars[0] && chars[0]
        <= 'z')) && chars[1] == ':' {
        return true;
    }
    let table = aliases::path_aliases();
    let mut i: usize = 0;
    proof {
        assert(aliases::alias_table().len() == table@.len());
    }
    while i < table.len()
        invariant
            i <= table.len(),
            chars@ == value@,
            aliases::alias_models(table@) == aliases::alias_table(),
            aliases::alias_table().len() == table@.len(),
            forall|k: int|
                0 <= k < i ==> !aliases::stands_ignoring_case(
                    value@,
                    (#[trigger] aliases::alias_table()[k]).name,
                    0,
                ),
        decreases table.len() - i,
    {
        let name = text::chars_of(table[i].name);
        proof {
            assert(aliases::alias_table()[i as int] == table@[i as int]@);
        }
        if name.len() <= chars.len() && text::equal_ignoring_ascii_case(
            vstd::slice::slice_subrange(chars.as_slice(), 0, name.len()),
            name.as_slice(),
        ) {
            return true;
        }
        i += 1;
    }
    false
}

/// The path that a text to search for names; none where it names no directory.
pub open spec fn browsed_path(search_text: Seq<char>, env: Environment) -> Option<Seq<char>> {
    let value = document::stripped(text::trimmed(search_text), seq!['"']);
    if value.len() == 0 || !names_directory(value) {
        None
    } else {
        Some(aliases::expanded_path(value, env))
    }
}

/// The path that a text to search for names.
pub fn directory_query(search_text: &str, env: &Environment) -> (r: Option<String>)
    ensures
        text::optional(r) == browsed_path(search_text@, *env),
{
    let chars = text::chars_of(search_text);
    let quote: Vec<char> = vec!['"'];
    proof {
        assert(quote@ =~= seq!['"']);
    }
    let value = text::string_of(
        document::strip_both(text::trim_chars(chars.as_slice()), quote.as_slice()),
    );
    if value.as_str().is_empty() || !looks_like_directory_query(value.as_str()) {
        return None;
    }
    Some(aliases::expand_path(value.as_str(), env))
}

/// The path that a query asks to browse, if it asks for one. Whether it or the folder
/// that it stands in is a directory decides what is shown.
pub fn directory_query_of(raw: &str, env: &Environment) -> (r: Option<String>)
    ensures
        text::optional(r) == browsed_path(query_model(raw@).search_text, *env),
{
    let parts = split_query(raw);
    directory_query(parts.search_text.as_str(), env)
}

/// A directory to list and a filter.
#[verifier::ext_equal]
pub struct BrowseModel {
    pub base: Seq<char>,
    pub filter: Seq<char>,
}

/// The directory that a path stands for: the path itself where it is one, else the
/// folder that it stands in, filtered by its name.
pub open spec fn browsed(path: Seq<char>, is_dir: bool, parent_is_dir: bool) -> Option<BrowseModel> {
    if is_dir {
        Some(BrowseModel { base: path, filter: Seq::empty() })
    } else {
        match winpath::parent(path) {
            None => None,
            Some(base) => if !parent_is_dir {
                None
            } else {
                Some(
                    BrowseModel {
                        base,
                        filter: match winpath::file_name(path) {
                            Some(name) => name,
                            None => Seq::empty(),
                        },
                    },
                )
            },
        }
    }
}

/// What is known of a browsed directory.
pub open spec fn browse_model(spec: Option<DirectoryBrowseSpec>) -> Option<BrowseModel> {
    match spec {
        Some(s) => Some(BrowseModel { base: s.base@, filter: s.filter@ }),
        None => None,
    }
}

fn browse_path(path: String, is_dir: bool, parent_is_dir: bool) -> (r: Option<DirectoryBrowseSpec>)
    ensures
        browse_model(r) == browsed(path@, is_dir, parent_is_dir),
{
    if is_dir {
        let filter = String::new();
        proof {
            assert(filter@ =~= Seq::<char>::empty());
        }
        return Some(DirectoryBrowseSpec { base: path, filter });
    }
    match winpath::parent_of(path.as_str()) {
        None => None,
        Some(base) => {
            if !parent_is_dir {
                return None;
            }
            let filter: String = match winpath::file_name_of(path.as_str()) {
                Some(name) => name,
                None => String::new(),
            };
            proof {
                if winpath::file_name(path@) is None {
                    assert(filter@ =~= Seq::<char>::empty());
                }
            }
            Some(DirectoryBrowseSpec { base, filter })
        },
    }
}

/// The directory that a text to search for asks to browse, where it is known whether
/// the path that it names or the folder of that path is a directory.
pub fn parse_directory_browse_spec(
    search_text: &str,
    env: &Environment,
    is_dir: bool,
    parent_is_dir: bool,
) -> (r: Option<DirectoryBrowseSpec>)
    ensures
        browse_model(r) == (match browsed_path(search_text@, *env) {
            None => None,
            Some(path) => browsed(path, is_dir, parent_is_dir),
        }),
{
    match directory_query(search_text, env) {
        None => None,
        Some(path) => browse_path(path, is_dir, parent_is_dir),
    }
}

// ---------------------------------------------------------------------------
// Queries
// ---------------------------------------------------------------------------

/// The keywords by which rules are chosen: those that the query asks for.
pub fn query_scoring_modifiers(explicit_modifiers: &[String]) -> (r: Vec<String>)
    ensures
        text::texts(r@) == text::texts(explicit_modifiers@),
{
    types::copy_strings(explicit_modifiers)
}

/// A query in the form in which it is answered.
pub open spec fn specifies(
    spec: SearchQuerySpec,
    raw: Seq<char>,
    now: i64,
    directory: Option<BrowseModel>,
) -> bool {
    let m = query_model(raw);
    let blank = m.raw.len() == 0 || (text::trimmed(m.search_text).len() == 0 && !m.show_all
        && m.modifiers.len() == 0);
    &&& spec.raw@ == m.raw
    &&& spec.search_text@ == m.search_text
    &&& spec.folded_search_text@ == text::fold(m.search_text)
    &&& text::texts(spec.modifiers@) == m.modifiers
    &&& text::texts(spec.scoring_modifiers@) == m.modifiers
    &&& spec.show_all == m.show_all
    &&& spec.scoring_time_unix_seconds == now
    &&& spec.mode == (if blank {
        SearchQueryMode::BlankHistory
    } else if directory is Some {
        SearchQueryMode::DirectoryBrowse
    } else {
        SearchQueryMode::NormalSearch
    })
    &&& browse_model(spec.directory) == (if blank {
        None
    } else {
        directory
    })
}

/// Reads a query at a time. Where it names a path, it is known whether that, or the
/// folder that it stands in, is a directory.
pub fn parse_search_query(
    raw: &str,
    now: i64,
    env: &Environment,
    is_dir: bool,
    parent_is_dir: bool,
) -> (r: SearchQuerySpec)
    ensures
        specifies(
            r,
            raw@,
            now,
            match browsed_path(query_model(raw@).search_text, *env) {
                None => None,
                Some(path) => browsed(path, is_dir, parent_is_dir),
            },
        ),
{
    let parts = split_query(raw);
    let folded_search_text = text::fold_text(parts.search_text.as_str());
    let scoring_modifiers = query_scoring_modifiers(parts.modifiers.as_slice());
    let plain = text::trim_text(parts.search_text.as_str());
    proof {
        assert(text::texts(parts.modifiers@).len() == parts.modifiers@.len());
    }
    let blank = parts.raw.as_str().is_empty() || (plain.as_str().is_empty() && !parts.show_all
        && parts.modifiers.len() == 0);
    let directory = if blank {
        None
    } else {
        parse_directory_browse_spec(parts.search_text.as_str(), env, is_dir, parent_is_dir)
    };
    let mode = if blank {
        SearchQueryMode::BlankHistory
    } else {
        match &directory {
            Some(_) => SearchQueryMode::DirectoryBrowse,
            None => SearchQueryMode::NormalSearch,
        }
    };
    SearchQuerySpec {
        raw: parts.raw,
        search_text: parts.search_text,
        folded_search_text,
        modifiers: parts.modifiers,
        scoring_modifiers,
        show_all: parts.show_all,
        mode,
        directory,
        scoring_time_unix_seconds: now,
    }
}

/// The text that scores are worked out for.
pub fn effective_search_text_for_scoring(spec: &SearchQuerySpec) -> (r: String)
    ensures
        r@ == spec.folded_search_text@,
{
    spec.folded_search_text.clone()
}

impl DirectoryBrowseSpec {
    /// A copy.
    pub fn copy(&self) -> (r: DirectoryBrowseSpec)
        ensures
            r == *self,
    {
        DirectoryBrowseSpec { base: self.base.clone(), filter: self.filter.clone() }
    }
}

/// Two queries that ask for the same.
pub open spec fn same_query(a: SearchQuerySpec, b: SearchQuerySpec) -> bool {
    &&& a.raw@ == b.raw@
    &&& a.search_text@ == b.search_text@
    &&& a.folded_search_text@ == b.folded_search_text@
    &&& text::texts(a.modifiers@) == text::texts(b.modifiers@)
    &&& text::texts(a.scoring_modifiers@) == text::texts(b.scoring_modifiers@)
    &&& a.show_all == b.show_all
    &&& a.mode == b.mode
    &&& a.directory == b.directory
    &&& a.scoring_time_unix_seconds == b.scoring_time_unix_seconds
}

/// A query as scores are worked out for it: like another, with its folded text as its
/// text.
pub open spec fn is_effective(effective: SearchQuerySpec, spec: SearchQuerySpec) -> bool {
    &&& effective.search_text@ == spec.folded_search_text@
    &&& same_query((SearchQuerySpec { search_text: spec.search_text, ..effective }), spec)
}

impl SearchQuerySpec {
    /// A copy.
    pub fn copy(&self) -> (r: SearchQuerySpec)
        ensures
            same_query(r, *self),
    {
        SearchQuerySpec {
            raw: self.raw.clone(),
            search_text: self.search_text.clone(),
            folded_search_text: self.folded_search_text.clone(),
            modifiers: types::copy_strings(self.modifiers.as_slice()),
            scoring_modifiers: types::copy_strings(self.scoring_modifiers.as_slice()),
            show_all: self.show_all,
            mode: self.mode,
            directory: match &self.directory {
                Some(d) => Some(d.copy()),
                None => None,
            },
            scoring_time_unix_seconds: self.scoring_time_unix_seconds,
        }
    }

    /// The query as scores are worked out for it: its folded text is its text.
    pub fn effective_for_scoring(&self) -> (r: SearchQuerySpec)
        ensures
            is_effective(r, *self),
    {
        let mut effective = self.copy();
        effective.folded_search_text = effective_search_text_for_scoring(self);
        effective.search_text = effective.folded_search_text.clone();
        effective
    }
}

// ---------------------------------------------------------------------------
// What is read from a query
// ---------------------------------------------------------------------------

proof fn lemma_keywords_asked(all: Seq<Seq<char>>, n: int)
    requires
        0 <= n <= all.len(),
    ensures
        keywords_asked(all, n).no_duplicates(),
        forall|i: int|
            0 <= i < n && (#[trigger] all[i]).len() > 0 && all[i][0] == '+' && text::trimmed(
                all[i].drop_first(),
            ).len() > 0 && text::trimmed(text::fold(text::trimmed(all[i].drop_first()))).len() > 0
                && !text::same_ignoring_ascii_case(
                text::trimmed(text::fold(text::trimmed(all[i].drop_first()))),
                "sall"@,
            ) ==> keywords_asked(all, n).contains(
                text::trimmed(text::fold(text::trimmed(all[i].drop_first()))),
            ),
        forall|k: int|
            0 <= k < keywords_asked(all, n).len() ==> {
                let keyword = #[trigger] keywords_asked(all, n)[k];
                keyword.len() > 0 && !text::same_ignoring_ascii_case(keyword, "sall"@) && exists|
                    i: int,
                |
                    0 <= i < n && (#[trigger] all[i]).len() > 0 && all[i][0] == '+' && keyword
                        == text::trimmed(text::fold(text::trimmed(all[i].drop_first())))
            },
    decreases n,
{
    if n > 0 {
        lemma_keywords_asked(all, n - 1);
        let before = keywords_asked(all, n - 1);
        let now = keywords_asked(all, n);
        let own = marked_keyword(all[n - 1]);
        assert forall|k: Seq<char>| before.contains(k) implies #[trigger] now.contains(k) by {
            let i = before.index_of(k);
            assert(now[i] == k);
        }
        if now != before {
            assert(now[now.len() - 1] == own);
        }
        assert forall|k: int| 0 <= k < now.len() implies ({
            let keyword = #[trigger] now[k];
            keyword.len() > 0 && !text::same_ignoring_ascii_case(keyword, "sall"@) && exists|i: int|
                0 <= i < n && (#[trigger] all[i]).len() > 0 && all[i][0] == '+' && keyword
                    == text::trimmed(text::fold(text::trimmed(all[i].drop_first())))
        }) by {
            if k < before.len() {
                assert(now[k] == before[k]);
            } else {
                assert(now[k] == own);
                assert(all[n - 1].len() > 0);
            }
        }
    }
}

/// Every word of a query that begins with a plus sign and names a keyword other than `sall`
/// has that keyword, folded, among the modifiers; every modifier comes from such a word; and
/// none stands twice.
pub proof fn lemma_every_keyword_is_asked(raw: Seq<char>)
    ensures
        ({
            let all = text::words(text::trimmed(raw));
            let modifiers = query_model(raw).modifiers;
            &&& modifiers.no_duplicates()
            &&& forall|i: int|
                0 <= i < all.len() && (#[trigger] all[i]).len() > 0 && all[i][0] == '+'
                    && text::trimmed(all[i].drop_first()).len() > 0 && text::trimmed(
                    text::fold(text::trimmed(all[i].drop_first())),
                ).len() > 0 && !text::same_ignoring_ascii_case(
                    text::trimmed(text::fold(text::trimmed(all[i].drop_first()))),
                    "sall"@,
                ) ==> modifiers.contains(
                    text::trimmed(text::fold(text::trimmed(all[i].drop_first()))),
                )
            &&& forall|k: int|
                0 <= k < modifiers.len() ==> {
                    let keyword = #[trigger] modifiers[k];
                    keyword.len() > 0 && !text::same_ignoring_ascii_case(keyword, "sall"@)
                        && exists|i: int|
                        0 <= i < all.len() && (#[trigger] all[i]).len() > 0 && all[i][0] == '+'
                            && keyword == text::trimmed(
                            text::fold(text::trimmed(all[i].drop_first())),
                        )
                }
        }),
{
    let all = text::words(text::trimmed(raw));
    lemma_keywords_asked(all, all.len() as int);
}

proof fn lemma_earlier_keywords_stay(all: Seq<Seq<char>>, n: int, m: int)
    requires
        0 <= n <= m <= all.len(),
    ensures
        keywords_asked(all, n).len() <= keywords_asked(all, m).len(),
        keywords_asked(all, m).take(keywords_asked(all, n).len() as int) == keywords_asked(all, n),
    decreases m,
{
    if n < m {
        lemma_earlier_keywords_stay(all, n, m - 1);
        assert(keywords_asked(all, m).take(keywords_asked(all, n).len() as int)
            =~= keywords_asked(all, m - 1).take(keywords_asked(all, n).len() as int));
    } else {
        assert(keywords_asked(all, m).take(keywords_asked(all, m).len() as int) =~= keywords_asked(
            all,
            m,
        ));
    }
}

proof fn lemma_keywords_of_front(a: Seq<Seq<char>>, b: Seq<Seq<char>>, n: int)
    requires
        0 <= n <= a.len(),
        n <= b.len(),
        forall|i: int| 0 <= i < n ==> a[i] == b[i],
    ensures
        keywords_asked(a, n) == keywords_asked(b, n),
    decreases n,
{
    if n > 0 {
        lemma_keywords_of_front(a, b, n - 1);
    }
}

/// Keywords come in the order in which they are first asked for: what the first words of a
/// row ask for is how the keywords of the whole row begin.
pub proof fn lemma_keywords_keep_their_order(all: Seq<Seq<char>>, n: int)
    requires
        0 <= n <= all.len(),
    ensures
        ({
            let front = keywords_asked(all.take(n), n);
            let whole = keywords_asked(all, all.len() as int);
            front.len() <= whole.len() && whole.take(front.len() as int) == front
        }),
{
    lemma_keywords_of_front(all.take(n), all, n);
    lemma_earlier_keywords_stay(all, n, all.len() as int);
}

proof fn lemma_plain_words(all: Seq<Seq<char>>, n: int)
    requires
        0 <= n <= all.len(),
    ensures
        plain_words(all, n) == all.take(n).filter(
            |w: Seq<char>| !(w.len() > 0 && w[0] == '+'),
        ),
    decreases n,
{
    reveal(Seq::filter);
    let p = |w: Seq<char>| !(w.len() > 0 && w[0] == '+');
    if n > 0 {
        lemma_plain_words(all, n - 1);
        assert(all.take(n).drop_last() =~= all.take(n - 1));
        assert(all.take(n).last() == all[n - 1]);
    }
}

/// The text to search for is the words of the query that do not begin with a plus sign, in
/// their order, with a space between each two.
pub proof fn lemma_search_text_is_the_other_words(raw: Seq<char>)
    ensures
        query_model(raw).raw == text::trimmed(raw),
        query_model(raw).search_text == text::join(
            text::words(text::trimmed(raw)).filter(
                |w: Seq<char>| !(w.len() > 0 && w[0] == '+'),
            ),
            seq![' '],
        ),
{
    let all = text::words(text::trimmed(raw));
    lemma_plain_words(all, all.len() as int);
    assert(all.take(all.len() as int) =~= all);
    reveal_strlit(" ");
    assert(" "@ =~= seq![' ']);
}

/// All matches are asked for where one of the words is a plus sign and `sall`, in whatever
/// case, and only there.
pub proof fn lemma_sall_asks_for_all(raw: Seq<char>)
    ensures
        query_model(raw).show_all <==> exists|i: int|
            0 <= i < text::words(text::trimmed(raw)).len() && ({
                let word = #[trigger] text::words(text::trimmed(raw))[i];
                word.len() > 0 && word[0] == '+' && text::trimmed(word.drop_first()).len() > 0
                    && text::same_ignoring_ascii_case(
                    text::trimmed(text::fold(text::trimmed(word.drop_first()))),
                    "sall"@,
                )
            }),
{
    let all = text::words(text::trimmed(raw));
    if query_model(raw).show_all {
        let i = choose|i: int| 0 <= i < all.len() && asks_for_all(#[trigger] all[i]);
        assert(all[i][0] == '+');
    }
    assert forall|i: int| 0 <= i < all.len() && ({
        let word = #[trigger] all[i];
        word.len() > 0 && word[0] == '+' && text::trimmed(word.drop_first()).len() > 0
            && text::same_ignoring_ascii_case(
            text::trimmed(text::fold(text::trimmed(word.drop_first()))),
            "sall"@,
        )
    }) implies query_model(raw).show_all by {
        assert(asks_for_all(all[i]));
    }
}

/// A query asks for what was launched before where it is blank, or where it has neither
/// text, keywords nor a call for all matches; it browses where it has a directory; and it
/// searches otherwise. Rules are chosen by the keywords that it asks for.
pub proof fn lemma_modes_of_a_query(
    spec: SearchQuerySpec,
    raw: Seq<char>,
    now: i64,
    directory: Option<BrowseModel>,
)
    requires
        specifies(spec, raw, now, directory),
    ensures
        spec.mode == SearchQueryMode::BlankHistory <==> text::trimmed(raw).len() == 0 || (
        text::trimmed(spec.search_text@).len() == 0 && spec.modifiers@.len() == 0
            && !spec.show_all),
        spec.mode == SearchQueryMode::DirectoryBrowse <==> spec.directory is Some,
        spec.mode != SearchQueryMode::BlankHistory && directory is Some ==> (
        spec.directory matches Some(d) && d.base@ == directory->0.base && d.filter@
            == directory->0.filter),
        directory is None ==> spec.directory is None,
        spec.folded_search_text@ == text::fold(spec.search_text@),
        spec.raw@ == text::trimmed(raw),
        text::texts(spec.scoring_modifiers@) == text::texts(spec.modifiers@),
        spec.scoring_time_unix_seconds == now,
{
    assert(text::texts(spec.modifiers@).len() == spec.modifiers@.len());
}

/// A path that is a directory is browsed itself, and all that is in it; any other one is
/// browsed in the folder that it stands in, where that is a directory, and not at all where
/// it is none.
pub proof fn lemma_directories_are_listed_whole(path: Seq<char>, parent_is_dir: bool)
    ensures
        browsed(path, true, parent_is_dir) matches Some(b) && b.base == path && b.filter.len() == 0,
        browsed(path, false, false) is None,
        browsed(path, false, true) is Some <==> winpath::parent(path) is Some,
        browsed(path, false, true) matches Some(b) ==> b.base == winpath::parent(path)->0 && (
        winpath::file_name(path) matches Some(name) ==> b.filter == name),
{
}

/// A directory is named by a drive, by a share, or by one of the aliases, and by nothing else.
pub proof fn lemma_what_names_a_directory(letter: char, rest: Seq<char>, value: Seq<char>)
    ensures
        ('a' <= letter && letter <= 'z') || ('A' <= letter && letter <= 'Z') ==> names_directory(
            seq![letter, ':'] + rest,
        ),
        names_directory(seq!['\\', '\\'] + rest),
        names_directory(value) && !(value.len() >= 2 && value[0] == '\\' && value[1] == '\\') && !(
        value.len() >= 2 && value[1] == ':') ==> exists|i: int|
            0 <= i < aliases::alias_table().len() && aliases::stands_ignoring_case(
                value,
                (#[trigger] aliases::alias_table()[i]).name,
                0,
            ),
{
    reveal_strlit("\\\\");
    assert("\\\\"@ =~= seq!['\\', '\\']);
    let share = seq!['\\', '\\'] + rest;
    assert(share.subrange(0, 2) =~= "\\\\"@);
    if text::has_prefix(value, "\\\\"@) {
        assert(value.subrange(0, 2)[0] == value[0]);
        assert(value.subrange(0, 2)[1] == value[1]);
    }
}

/// Quotation marks and white space around a path do not count.
pub proof fn lemma_quotes_do_not_count(path: Seq<char>, env: Environment)
    requires
        path.len() > 0,
        path[0] != '"' && path.last() != '"',
    ensures
        browsed_path(seq!['"'] + path + seq!['"'], env) == (if names_directory(path) {
            Some(aliases::expanded_path(path, env))
        } else {
            None
        }),
{
    let quoted = seq!['"'] + path + seq!['"'];
    text::lemma_white_space('"');
    text::lemma_trimmed_stays(quoted);
    let set = seq!['"'];
    assert(set[0] == '"');
    document::lemma_stripping_takes_the_ends(quoted, set);
    let (i, j) = choose|i: int, j: int|
        0 <= i <= j <= quoted.len() && #[trigger] quoted.subrange(i, j) == document::stripped(
            quoted,
            set,
        ) && (forall|k: int| 0 <= k < i || j <= k < quoted.len() ==> set.contains(
            #[trigger] quoted[k],
        ));
    let n = path.len() as int;
    let found = document::stripped(quoted, set);
    assert(quoted[1] == path[0] && quoted[n] == path.last());
    assert(!set.contains(quoted[1]) && !set.contains(quoted[n]));
    assert(i <= 1 && j >= n + 1);
    if i == 0 {
        assert(found[0] == quoted[0]);
        assert(set.contains(quoted[0]));
    }
    if j == n + 2 {
        assert(found.last() == quoted[n + 1]);
        assert(set.contains(quoted[n + 1]));
    }
    assert(found =~= path);
}

/// A query is searched for as it is typed and without accents and case; its keywords count for
/// the folders and for the rules alike.
pub proof fn lemma_parts_of_a_query(
    spec: SearchQuerySpec,
    raw: Seq<char>,
    now: i64,
    directory: Option<BrowseModel>,
)
    requires
        specifies(spec, raw, now, directory),
    ensures
        spec.raw@ == text::trimmed(raw),
        spec.folded_search_text@ == text::fold(spec.search_text@),
        text::texts(spec.scoring_modifiers@) == text::texts(spec.modifiers@),
        text::texts(spec.modifiers@).no_duplicates(),
        spec.scoring_time_unix_seconds == now,
        spec.mode == SearchQueryMode::DirectoryBrowse ==> browse_model(spec.directory) == directory,
        spec.mode == SearchQueryMode::NormalSearch ==> spec.directory is None,
{
    lemma_every_keyword_is_asked(raw);
}

} // verus!
