//! Items that can be launched, made from paths.

use crate::document;
use crate::root_ownership;
use crate::scoring::PreparedCandidateName;
use crate::text;
use crate::types::{IndexRoot, LaunchItem, ScoringConfig};
use crate::winpath;
use vstd::prelude::*;

verus! {

/// The title of a candidate: its file name or, where that is missing or blank, its
/// path.
pub open spec fn candidate_title(path: Seq<char>, file_name: Option<Seq<char>>) -> Seq<char> {
    match file_name {
        Some(name) => if text::trimmed(name).len() > 0 {
            text::trimmed(name)
        } else {
            path
        },
        None => path,
    }
}

/// The folded file name without its extension; empty where there is none.
pub open spec fn folded_stem_of(path: Seq<char>) -> Seq<char> {
    match winpath::file_stem(path) {
        Some(stem) => text::fold(stem),
        None => Seq::empty(),
    }
}

/// The searchable text of the folder of a path; empty where there is none.
pub open spec fn folded_parent_of(path: Seq<char>) -> Seq<char> {
    match winpath::parent(path) {
        Some(folder) => text::searchable(folder),
        None => Seq::empty(),
    }
}

fn folded_stem_text(path: &str) -> (r: String)
    ensures
        r@ == folded_stem_of(path@),
{
    match winpath::file_stem_of(path) {
        Some(stem) => text::fold_text(stem.as_str()),
        None => String::new(),
    }
}

fn folded_parent_text(path: &str) -> (r: String)
    ensures
        r@ == folded_parent_of(path@),
{
    match winpath::parent_of(path) {
        Some(folder) => text::searchable_text(folder.as_str()),
        None => String::new(),
    }
}

/// A name prepared for a path and a file name.
pub open spec fn names(
    name: PreparedCandidateName,
    path: Seq<char>,
    file_name: Option<Seq<char>>,
) -> bool {
    &&& name.title@ == candidate_title(path, file_name)
    &&& name.folded_title@ == text::fold(candidate_title(path, file_name))
    &&& name.folded_stem@ == folded_stem_of(path)
}

impl PreparedCandidateName {
    /// The name of a candidate whose file name is known. There is none where the
    /// title would be empty.
    pub fn from_path_and_file_name(path: &str, file_name: &Option<String>) -> (r: Option<
        PreparedCandidateName,
    >)
        ensures
            ({
                let known = match *file_name {
                    Some(name) => Some(name@),
                    None => None,
                };
                match r {
                    None => candidate_title(path@, known).len() == 0,
                    Some(found) => candidate_title(path@, known).len() > 0 && names(
                        found,
                        path@,
                        known,
                    ),
                }
            }),
    {
        let title: String = match file_name {
            Some(name) => {
                let trimmed = text::trim_text(name.as_str());
                if trimmed.as_str().is_empty() {
                    path.to_owned()
                } else {
                    trimmed
                }
            },
            None => path.to_owned(),
        };
        if title.as_str().is_empty() {
            return None;
        }
        let folded_title = text::fold_text(title.as_str());
        Some(PreparedCandidateName { title, folded_title, folded_stem: folded_stem_text(path) })
    }

    /// The name of a candidate.
    pub fn from_path(path: &str) -> (r: Option<PreparedCandidateName>)
        ensures
            match r {
                None => candidate_title(path@, winpath::file_name(path@)).len() == 0,
                Some(found) => candidate_title(path@, winpath::file_name(path@)).len() > 0 && names(
                    found,
                    path@,
                    winpath::file_name(path@),
                ),
            },
    {
        let name = winpath::file_name_of(path);
        PreparedCandidateName::from_path_and_file_name(path, &name)
    }
}

/// The time of the last change, asked for only where it counts.
pub fn modified_at_for_scoring<F: FnOnce() -> Option<i64>>(scoring: &ScoringConfig, load: F) -> (r:
    Option<i64>)
    requires
        scoring.recency_date_enabled ==> call_requires(load, ()),
    ensures
        if scoring.recency_date_enabled {
            call_ensures(load, (), r)
        } else {
            r is None
        },
{
    if scoring.recency_date_enabled {
        load()
    } else {
        None
    }
}

impl LaunchItem {
    /// An item with a title of its own.
    pub fn new(
        title: &str,
        subtitle: &str,
        path: &str,
        is_dir: bool,
        index_score: i32,
        modified_at_unix_seconds: Option<i64>,
    ) -> (r: LaunchItem)
        ensures
            r.title@ == title@,
            r.subtitle@ == subtitle@,
            r.path@ == path@,
            r.is_dir == is_dir,
            r.folded_title@ == text::fold(title@),
            r.folded_stem@ == folded_stem_of(path@),
            r.folded_parent@ == folded_parent_of(path@),
            r.index_score == index_score,
            r.modified_at_unix_seconds == modified_at_unix_seconds,
            r.search_root is None,
            r.relative_depth == 0,
    {
        LaunchItem {
            title: title.to_owned(),
            subtitle: subtitle.to_owned(),
            path: path.to_owned(),
            is_dir,
            folded_title: text::fold_text(title),
            folded_stem: folded_stem_text(path),
            folded_parent: folded_parent_text(path),
            index_score,
            modified_at_unix_seconds,
            search_root: None,
            relative_depth: 0,
        }
    }

    /// The item as one of a search folder.
    pub fn with_search_root(self, search_root: String, relative_depth: usize) -> (r: LaunchItem)
        ensures
            r == (LaunchItem { search_root: Some(search_root), relative_depth, ..self }),
    {
        let mut item = self;
        item.search_root = Some(search_root);
        item.relative_depth = relative_depth;
        item
    }
}

/// An item made of what was prepared for it.
pub open spec fn made_of(
    item: LaunchItem,
    path: Seq<char>,
    is_dir: bool,
    root: IndexRoot,
    modified_at: Option<i64>,
    name: PreparedCandidateName,
    subtitle: Seq<char>,
    folded_parent: Seq<char>,
    relative_depth: usize,
) -> bool {
    &&& item.title@ == name.title@
    &&& item.subtitle@ == subtitle
    &&& item.path@ == path
    &&& item.is_dir == is_dir
    &&& item.folded_title@ == name.folded_title@
    &&& item.folded_stem@ == name.folded_stem@
    &&& item.folded_parent@ == folded_parent
    &&& item.index_score == root.score
    &&& item.modified_at_unix_seconds == modified_at
    &&& item.search_root == root.path
    &&& item.relative_depth == (if root.path is Some {
        relative_depth
    } else {
        0
    })
}

/// The item of a candidate whose name, folder and depth are prepared.
pub fn launch_item_from_prepared_candidate(
    path: &str,
    is_dir: bool,
    root: &IndexRoot,
    modified_at: Option<i64>,
    prepared_name: PreparedCandidateName,
    subtitle: String,
    folded_parent: String,
    relative_depth: usize,
) -> (r: LaunchItem)
    ensures
        made_of(
            r,
            path@,
            is_dir,
            *root,
            modified_at,
            prepared_name,
            subtitle@,
            folded_parent@,
            relative_depth,
        ),
{
    let item = LaunchItem {
        title: prepared_name.title,
        subtitle,
        path: path.to_owned(),
        is_dir,
        folded_title: prepared_name.folded_title,
        folded_stem: prepared_name.folded_stem,
        folded_parent,
        index_score: root.score,
        modified_at_unix_seconds: modified_at,
        search_root: None,
        relative_depth: 0,
    };
    match &root.path {
        Some(root_path) => item.with_search_root(root_path.clone(), relative_depth),
        None => item,
    }
}

/// How far below its search folder an item lies: a file counts as its folder does.
pub open spec fn depth_below(
    path: Seq<char>,
    is_dir: bool,
    root: Option<Seq<char>>,
    working_directory: Seq<char>,
) -> nat {
    match root {
        None => 0,
        Some(folder) => match root_ownership::relative_depth(
            root_ownership::path_key(path, working_directory),
            root_ownership::path_key(folder, working_directory),
        ) {
            None => 0,
            Some(depth) => if is_dir || depth == 0 {
                depth
            } else {
                (depth - 1) as nat
            },
        },
    }
}

// ---------------------------------------------------------------------------
// Where an item is shown to lie
// ---------------------------------------------------------------------------

/// Without separators on either side.
pub open spec fn unslashed(s: Seq<char>) -> Seq<char> {
    document::stripped(s, seq!['\\', '/'])
}

/// The name under which a search folder is shown.
pub open spec fn root_display(raw: Seq<char>, folder: Seq<char>) -> Seq<char> {
    match winpath::file_name(folder) {
        Some(name) => if unslashed(name).len() > 0 {
            unslashed(name)
        } else {
            unslashed(raw)
        },
        None => unslashed(raw),
    }
}

/// The folder of an item, or its path where it has none.
pub open spec fn parent_or_self(path: Seq<char>) -> Seq<char> {
    match winpath::parent(path) {
        Some(folder) => folder,
        None => path,
    }
}

/// The folder of an item as it is shown: below the name of the search folder, or in
/// full where it lies elsewhere.
pub open spec fn parent_display(
    path: Seq<char>,
    raw: Seq<char>,
    folder: Option<Seq<char>>,
) -> Seq<char> {
    let own = parent_or_self(path);
    match folder {
        None => own,
        Some(root) => match winpath::relative_to(own, root) {
            None => own,
            Some(rest) => if unslashed(rest).len() == 0 {
                root_display(raw, root) + "\\"@
            } else {
                root_display(raw, root) + "\\"@ + unslashed(rest) + "\\"@
            },
        },
    }
}

pub(crate) fn unslash(s: &str) -> (r: String)
    ensures
        r@ == unslashed(s@),
{
    let chars = text::chars_of(s);
    let set: Vec<char> = vec!['\\', '/'];
    proof {
        assert(set@ =~= seq!['\\', '/']);
    }
    text::string_of(document::strip_both(chars.as_slice(), set.as_slice()))
}

/// The folder of an item as it is shown.
pub fn indexed_parent_display(path: &str, root: &IndexRoot) -> (r: String)
    ensures
        r@ == parent_display(
            path@,
            root.raw@,
            match root.path {
                Some(p) => Some(p@),
                None => None,
            },
        ),
{
    let own: String = match winpath::parent_of(path) {
        Some(folder) => folder,
        None => path.to_owned(),
    };
    match &root.path {
        None => own,
        Some(root_path) => {
            let shown: String = match winpath::file_name_of(root_path.as_str()) {
                Some(name) => {
                    let plain = unslash(name.as_str());
                    if plain.as_str().is_empty() {
                        unslash(root.raw.as_str())
                    } else {
                        plain
                    }
                },
                None => unslash(root.raw.as_str()),
            };
            match winpath::relative_path(own.as_str(), root_path.as_str()) {
                None => own,
                Some(rest) => {
                    let plain = unslash(rest.as_str());
                    if plain.as_str().is_empty() {
                        text::cat2(shown.as_str(), "\\")
                    } else {
                        text::cat4(shown.as_str(), "\\", plain.as_str(), "\\")
                    }
                },
            }
        },
    }
}

/// An item made of a path in a search folder.
pub open spec fn item_of_path(
    item: LaunchItem,
    path: Seq<char>,
    is_dir: bool,
    root: IndexRoot,
    modified_at: Option<i64>,
    working_directory: Seq<char>,
) -> bool {
    let title = candidate_title(path, winpath::file_name(path));
    let folder = match root.path {
        Some(p) => Some(p@),
        None => None,
    };
    &&& item.title@ == title
    &&& item.subtitle@ == parent_display(path, root.raw@, folder)
    &&& item.path@ == path
    &&& item.is_dir == is_dir
    &&& item.folded_title@ == text::fold(title)
    &&& item.folded_stem@ == folded_stem_of(path)
    &&& item.folded_parent@ == folded_parent_of(path)
    &&& item.index_score == root.score
    &&& item.modified_at_unix_seconds == modified_at
    &&& item.search_root == root.path
    &&& item.relative_depth == depth_below(path, is_dir, folder, working_directory)
}

/// The item of a path in a search folder; none where it would have no title.
pub fn launch_item_from_path_with_type(
    path: &str,
    is_dir: bool,
    root: &IndexRoot,
    modified_at: Option<i64>,
    working_directory: &str,
) -> (r: Option<LaunchItem>)
    ensures
        match r {
            None => candidate_title(path@, winpath::file_name(path@)).len() == 0,
            Some(item) => {
                &&& candidate_title(path@, winpath::file_name(path@)).len() > 0
                &&& item_of_path(item, path@, is_dir, *root, modified_at, working_directory@)
            },
        },
{
    let prepared_name = match PreparedCandidateName::from_path(path) {
        Some(name) => name,
        None => {
            return None;
        },
    };
    let subtitle = indexed_parent_display(path, root);
    let folded_parent = folded_parent_text(path);
    let relative_depth: usize = match &root.path {
        None => 0,
        Some(root_path) => {
            let path_key = root_ownership::normalized_root_path_key(path, working_directory);
            let root_key = root_ownership::normalized_root_path_key(
                root_path.as_str(),
                working_directory,
            );
            match root_ownership::path_key_relative_depth(path_key.as_str(), root_key.as_str()) {
                None => 0,
                Some(depth) => if is_dir || depth == 0 {
                    depth
                } else {
                    depth - 1
                },
            }
        },
    };
    Some(
        launch_item_from_prepared_candidate(
            path,
            is_dir,
            root,
            modified_at,
            prepared_name,
            subtitle,
            folded_parent,
            relative_depth,
        ),
    )
}

// ---------------------------------------------------------------------------
// What items are called, and where they lie
// ---------------------------------------------------------------------------

/// An item is called by the name of its file without white space around it, and by its whole
/// path only where that leaves nothing.
pub proof fn lemma_names_of_items(path: Seq<char>, file_name: Option<Seq<char>>)
    ensures
        file_name matches Some(name) ==> text::trimmed(name).len() > 0 ==> candidate_title(
            path,
            file_name,
        ) == text::trimmed(name),
        file_name is None ==> candidate_title(path, file_name) == path,
        candidate_title(path, file_name) == path || file_name is Some && candidate_title(
            path,
            file_name,
        ) == text::trimmed(file_name->0),
        path.len() > 0 ==> candidate_title(path, file_name).len() > 0,
{
}

/// What lies one piece deeper than a folder is one deeper where it is a folder, and as deep as
/// the folder where it is a file.
pub proof fn lemma_depths_of_items(
    path: Seq<char>,
    folder: Seq<char>,
    root: Seq<char>,
    working_directory: Seq<char>,
    piece: Seq<char>,
)
    requires
        piece.len() > 0,
        !piece.contains('\\'),
        root_ownership::within(
            root_ownership::path_key(folder, working_directory),
            root_ownership::path_key(root, working_directory),
        ),
        root_ownership::path_key(folder, working_directory).len() > 0,
        root_ownership::path_key(folder, working_directory).last() != '\\',
        root_ownership::path_key(path, working_directory) == root_ownership::path_key(
            folder,
            working_directory,
        ) + seq!['\\'] + piece,
    ensures
        depth_below(path, true, Some(root), working_directory) == depth_below(
            folder,
            true,
            Some(root),
            working_directory,
        ) + 1,
        depth_below(path, false, Some(root), working_directory) == depth_below(
            folder,
            true,
            Some(root),
            working_directory,
        ),
        depth_below(root, true, Some(root), working_directory) == 0,
        depth_below(path, true, None, working_directory) == 0,
{
    root_ownership::lemma_one_step_deeper(
        root_ownership::path_key(folder, working_directory),
        root_ownership::path_key(root, working_directory),
        piece,
    );
}

/// What does not lie within a search folder is shown in its own folder; what does is shown
/// behind the name of the search folder, between backslashes.
pub proof fn lemma_shown_places(path: Seq<char>, raw: Seq<char>, folder: Seq<char>)
    ensures
        parent_display(path, raw, None) == parent_or_self(path),
        winpath::relative_to(parent_or_self(path), folder) is None ==> parent_display(
            path,
            raw,
            Some(folder),
        ) == parent_or_self(path),
        winpath::relative_to(parent_or_self(path), folder) is Some ==> ({
            let shown = parent_display(path, raw, Some(folder));
            &&& shown.len() > 0 && shown.last() == '\\'
            &&& text::has_prefix(shown, root_display(raw, folder) + seq!['\\'])
            &&& winpath::relative_to(parent_or_self(path), folder) matches Some(rest) ==> (
            unslashed(rest).len() == 0 ==> shown == root_display(raw, folder) + seq!['\\']) && (
            unslashed(rest).len() > 0 ==> shown == root_display(raw, folder) + seq!['\\']
                + unslashed(rest) + seq!['\\'])
        }),
        winpath::parent(path) is Some ==> parent_or_self(path) == winpath::parent(path)->0,
        winpath::parent(path) is None ==> parent_or_self(path) == path,
{
    reveal_strlit("\\");
    assert("\\"@ =~= seq!['\\']);
    if winpath::relative_to(parent_or_self(path), folder) is Some {
        let front = root_display(raw, folder) + seq!['\\'];
        let rest = unslashed(winpath::relative_to(parent_or_self(path), folder)->0);
        let shown = parent_display(path, raw, Some(folder));
        if rest.len() == 0 {
            assert(shown =~= front + Seq::<char>::empty());
            text::lemma_stands_in(Seq::empty(), front, Seq::empty());
        } else {
            assert(shown =~= front + (rest + seq!['\\']));
            text::lemma_stands_in(Seq::empty(), front, rest + seq!['\\']);
        }
    }
}

/// A search folder is shown by its name, without slashes around it.
pub proof fn lemma_shown_folders(raw: Seq<char>, folder: Seq<char>)
    ensures
        ({
            let shown = root_display(raw, folder);
            &&& shown.len() > 0 ==> shown[0] != '\\' && shown[0] != '/' && shown.last() != '\\'
                && shown.last() != '/'
            &&& winpath::file_name(folder) matches Some(name) ==> (unslashed(name).len() > 0
                ==> shown == unslashed(name))
            &&& winpath::file_name(folder) is None ==> shown == unslashed(raw)
        }),
{
    let set = seq!['\\', '/'];
    assert(set[0] == '\\' && set[1] == '/');
    document::lemma_stripping_takes_the_ends(raw, set);
    if let Some(name) = winpath::file_name(folder) {
        document::lemma_stripping_takes_the_ends(name, set);
    }
}

} // verus!
