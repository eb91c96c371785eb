//! Looking at the paths of search folders one by one.

use crate::arith;
use crate::breakdown;
use crate::collect;
use crate::collect::HistoryTable;
use crate::index_roots::SEARCH_DEPTH_ALL;
use crate::items;
use crate::keyset::KeySet;
use crate::recents;
use crate::results;
use crate::results::RankedCandidate;
use crate::root_ownership;
use crate::scoring;
use crate::scoring::{PreparedCandidateName, PreparedQuery};
use crate::text;
use crate::types::{IndexRoot, LaunchItem, ScoringConfig, SearchQuerySpec};
use crate::winpath;
use crate::wording::Wording;
use vstd::prelude::*;

verus! {

// ---------------------------------------------------------------------------
// Where a path is looked at
// ---------------------------------------------------------------------------

/// A search folder, with what is needed of it again and again.
#[derive(Debug, PartialEq, Eq)]
pub struct RootScanContext {
    pub root: IndexRoot,
    pub root_key: String,
    pub root_name: String,
}

/// The path of a search folder.
pub open spec fn folder_path(root: IndexRoot) -> Option<Seq<char>> {
    match root.path {
        Some(p) => Some(p@),
        None => None,
    }
}

/// The name under which a search folder is shown.
pub open spec fn folder_name(root: IndexRoot) -> Seq<char> {
    match folder_path(root) {
        Some(folder) => items::root_display(root.raw@, folder),
        None => items::unslashed(root.raw@),
    }
}

impl RootScanContext {
    /// What is known of the search folder is right.
    pub open spec fn well_formed(&self, working_directory: Seq<char>) -> bool {
        &&& self.root_key@ == (match folder_path(self.root) {
            Some(folder) => root_ownership::path_key(folder, working_directory),
            None => Seq::empty(),
        })
        &&& self.root_name@ == folder_name(self.root)
    }

    /// What is needed of a search folder.
    pub fn new(root: IndexRoot, working_directory: &str) -> (r: RootScanContext)
        ensures
            r.root == root,
            r.well_formed(working_directory@),
    {
        let root_key: String = match &root.path {
            Some(path) => root_ownership::normalized_root_path_key(
                path.as_str(),
                working_directory,
            ),
            None => String::new(),
        };
        proof {
            if root.path is None {
                assert(root_key@ =~= Seq::<char>::empty());
            }
        }
        let named: Option<String> = match &root.path {
            Some(path) => winpath::file_name_of(path.as_str()),
            None => None,
        };
        let root_name: String = match named {
            Some(name) => {
                let plain = items::unslash(name.as_str());
                if plain.as_str().is_empty() {
                    items::unslash(root.raw.as_str())
                } else {
                    plain
                }
            },
            None => items::unslash(root.raw.as_str()),
        };
        RootScanContext { root, root_key, root_name }
    }
}

/// A directory, with what the items in it have in common.
#[derive(Debug, PartialEq, Eq)]
pub struct DirectoryScanContext {
    pub path: String,
    pub subtitle: String,
    pub folded_parent: String,
    pub depth: usize,
}

/// How a directory is shown: below the name of its search folder, or in full where it
/// lies elsewhere.
pub open spec fn shown_directory(path: Seq<char>, root: IndexRoot) -> Seq<char> {
    match folder_path(root) {
        None => path,
        Some(folder) => match winpath::relative_to(path, folder) {
            None => path,
            Some(rest) => if items::unslashed(rest).len() == 0 {
                folder_name(root) + "\\"@
            } else {
                folder_name(root) + "\\"@ + items::unslashed(rest) + "\\"@
            },
        },
    }
}

impl DirectoryScanContext {
    /// What the items of a directory have in common.
    pub fn new(path: &str, depth: usize, root: &RootScanContext) -> (r: DirectoryScanContext)
        requires
            root.root_name@ == folder_name(root.root),
        ensures
            r.path@ == path@,
            r.depth == depth,
            r.subtitle@ == shown_directory(path@, root.root),
            r.folded_parent@ == text::searchable(path@),
    {
        let subtitle: String = match &root.root.path {
            None => path.to_owned(),
            Some(folder) => match winpath::relative_path(path, folder.as_str()) {
                None => path.to_owned(),
                Some(rest) => {
                    let plain = items::unslash(rest.as_str());
                    if plain.as_str().is_empty() {
                        text::cat2(root.root_name.as_str(), "\\")
                    } else {
                        text::cat4(root.root_name.as_str(), "\\", plain.as_str(), "\\")
                    }
                },
            },
        };
        DirectoryScanContext {
            path: path.to_owned(),
            subtitle,
            folded_parent: text::searchable_text(path),
            depth,
        }
    }
}

/// An item is shown to lie in the same place whether it was found by looking through
/// its directory or was named by its path.
pub proof fn lemma_same_place_shown(path: Seq<char>, root: IndexRoot)
    requires
        winpath::parent(path) is Some,
    ensures
        items::parent_display(path, root.raw@, folder_path(root)) == shown_directory(
            winpath::parent(path)->0,
            root,
        ),
        items::folded_parent_of(path) == text::searchable(winpath::parent(path)->0),
{
}

/// A directory at a depth is looked through.
pub open spec fn looks_through(root: IndexRoot, depth: usize) -> bool {
    root.max_depth == SEARCH_DEPTH_ALL || depth <= root.max_depth
}

/// The directories of a directory at a depth are looked through.
pub open spec fn goes_deeper(root: IndexRoot, depth: usize) -> bool {
    root.max_depth == SEARCH_DEPTH_ALL || depth < root.max_depth
}

/// Whether a directory is looked through.
pub fn may_scan(root: &IndexRoot, depth: usize) -> (r: bool)
    ensures
        r == looks_through(*root, depth),
{
    root.max_depth == SEARCH_DEPTH_ALL || depth <= root.max_depth
}

/// Whether the directories of a directory are looked through.
pub fn may_descend(root: &IndexRoot, depth: usize) -> (r: bool)
    ensures
        r == goes_deeper(*root, depth),
{
    root.max_depth == SEARCH_DEPTH_ALL || depth < root.max_depth
}

/// Whether an entry is passed over: a directory that is a link or that another search
/// folder owns.
pub fn skips_entry(
    path: &str,
    is_dir: bool,
    is_reparse_point: bool,
    exclusions: &[String],
    working_directory: &str,
) -> (r: bool)
    ensures
        r == (is_dir && (is_reparse_point || root_ownership::within_any(
            root_ownership::path_key(path@, working_directory@),
            text::texts(exclusions@),
        ))),
{
    is_dir && (is_reparse_point || root_ownership::path_is_in_excluded_subtree(
        path,
        exclusions,
        working_directory,
    ))
}

// ---------------------------------------------------------------------------
// What is looked for
// ---------------------------------------------------------------------------

/// A query with all that its answers are scored by, and how they are explained.
#[derive(Debug, PartialEq, Eq)]
pub struct SearchScope {
    pub spec: SearchQuerySpec,
    pub prepared: PreparedQuery,
    pub scoring: ScoringConfig,
    pub history: HistoryTable,
    pub wording: Wording,
}

impl SearchScope {
    /// The prepared query is that of the query.
    pub open spec fn well_formed(&self) -> bool {
        self.prepared.prepares(
            self.spec.folded_search_text@,
            text::texts(self.spec.scoring_modifiers@),
            self.scoring,
        )
    }

    /// No score of the history is above its ceiling.
    pub open spec fn keeps_ceiling(&self) -> bool {
        forall|key: Seq<char>| #[trigger]
            collect::history_score(self.history, key) <= arith::max_int(
                self.scoring.recent_score_ceiling as int,
                0,
            )
    }

    /// A query with all that its answers are scored by, and how they are explained.
    pub fn new(
        spec: SearchQuerySpec,
        scoring: ScoringConfig,
        history: HistoryTable,
        wording: Wording,
    ) -> (r: SearchScope)
        ensures
            r.well_formed(),
            r.spec == spec,
            r.scoring == scoring,
            r.history == history,
            r.wording == wording,
    {
        let prepared = PreparedQuery::new(&spec, &scoring);
        SearchScope { spec, prepared, scoring, history, wording }
    }

    /// The text score of a name; none where it does not fit.
    pub open spec fn name_fit(
        &self,
        title: Seq<char>,
        stem: Seq<char>,
        folded_parent: Seq<char>,
        is_dir: bool,
    ) -> Option<i32> {
        scoring::name_score(
            self.prepared.folded_search_text@,
            title,
            stem,
            folded_parent,
            is_dir,
            self.scoring,
        )
    }

    /// The candidate that an item makes.
    pub open spec fn candidate_of(&self, item: LaunchItem, text_score: i32) -> RankedCandidate {
        results::heuristic_candidate(
            item,
            breakdown::components_of(
                item,
                self.prepared.folded_search_text@,
                self.spec.scoring_time_unix_seconds,
                text_score,
                breakdown::prepared_pattern_part(self.prepared, item),
                collect::history_score(self.history, text::fold(item.path@)),
                self.scoring,
            ),
            false,
        )
    }

    /// The most that an item can score.
    pub open spec fn bound_of(&self, item: LaunchItem, text_score: i32) -> i32 {
        breakdown::upper_bound(
            item,
            text_score,
            self.prepared.positive_pattern_score_ceiling,
            self.scoring,
        )
    }

    /// Makes the candidate of an item.
    pub fn make_candidate(&self, item: LaunchItem, path_key: &str, text_score: i32) -> (r:
        RankedCandidate)
        requires
            self.well_formed(),
            path_key@ == text::fold(item.path@),
        ensures
            r == self.candidate_of(item, text_score),
            results::penalty_is_valid(r),
    {
        let (history_score, _): (i32, Option<String>) = self.history.lookup(path_key);
        let components = breakdown::score_components_with_prepared_query(
            &item,
            &self.spec,
            &self.prepared,
            text_score,
            history_score,
            &self.scoring,
        );
        results::ranked_heuristic_candidate(item, components, false)
    }
}

// ---------------------------------------------------------------------------
// One path
// ---------------------------------------------------------------------------

/// A candidate, and the form in which its path is compared.
#[derive(Debug, PartialEq, Eq)]
pub struct PreparedSearchResult {
    pub path_key: String,
    pub candidate: RankedCandidate,
}

/// The text score of a path that is looked at; none where it has no title or does not
/// fit.
pub open spec fn path_fit(
    scope: SearchScope,
    path: Seq<char>,
    file_name: Option<Seq<char>>,
    is_dir: bool,
    directory: DirectoryScanContext,
) -> Option<i32> {
    let title = items::candidate_title(path, file_name);
    if title.len() == 0 {
        None
    } else {
        scope.name_fit(
            text::fold(title),
            items::folded_stem_of(path),
            directory.folded_parent@,
            is_dir,
        )
    }
}

/// The item of a path that was looked at.
pub open spec fn is_item_at(
    item: LaunchItem,
    path: Seq<char>,
    file_name: Option<Seq<char>>,
    is_dir: bool,
    root: IndexRoot,
    directory: DirectoryScanContext,
    modified_at: Option<i64>,
) -> bool {
    let title = items::candidate_title(path, file_name);
    &&& item.title@ == title
    &&& item.subtitle@ == directory.subtitle@
    &&& item.path@ == path
    &&& item.is_dir == is_dir
    &&& item.folded_title@ == text::fold(title)
    &&& item.folded_stem@ == items::folded_stem_of(path)
    &&& item.folded_parent@ == directory.folded_parent@
    &&& item.index_score == root.score
    &&& item.modified_at_unix_seconds == modified_at
    &&& item.search_root == root.path
    &&& item.relative_depth == (if root.path is Some {
        arith::min_int(
            directory.depth + (if is_dir {
                1int
            } else {
                0
            }),
            usize::MAX as int,
        )
    } else {
        0
    })
}

/// Makes the item of a path in a directory.
pub fn item_in_directory(
    path: &str,
    is_dir: bool,
    root: &RootScanContext,
    directory: &DirectoryScanContext,
    name: PreparedCandidateName,
    modified_at: Option<i64>,
) -> (r: LaunchItem)
    ensures
        r.title@ == name.title@,
        r.folded_title@ == name.folded_title@,
        r.folded_stem@ == name.folded_stem@,
        forall|file_name: Option<Seq<char>>|
            items::names(name, path@, file_name) ==> #[trigger] is_item_at(
                r,
                path@,
                file_name,
                is_dir,
                root.root,
                *directory,
                modified_at,
            ),
{
    let relative_depth: usize = directory.depth.saturating_add(
        if is_dir {
            1
        } else {
            0
        },
    );
    items::launch_item_from_prepared_candidate(
        path,
        is_dir,
        &root.root,
        modified_at,
        name,
        directory.subtitle.clone(),
        directory.folded_parent.clone(),
        relative_depth,
    )
}

/// What became of a path that fits and had not been seen: a candidate, unless even the
/// most that it can score is below a threshold.
pub open spec fn becomes(
    r: Option<PreparedSearchResult>,
    scope: SearchScope,
    item: LaunchItem,
    text_score: i32,
    threshold: int,
) -> bool {
    if results::is_hopeless(scope.bound_of(item, text_score), threshold) {
        r is None
    } else {
        r matches Some(found) && found.path_key@ == text::fold(item.path@) && found.candidate
            == scope.candidate_of(item, text_score)
    }
}

/// The time of last change of an item: what loading it gives, where the date counts.
pub open spec fn can_load<F: FnOnce() -> Option<i64>>(
    scope: SearchScope,
    load: F,
    modified_at: Option<i64>,
) -> bool {
    if scope.scoring.recency_date_enabled {
        call_ensures(load, (), modified_at)
    } else {
        modified_at is None
    }
}

/// What comes of looking at a path, with what was seen before and after it.
pub open spec fn considers<F: FnOnce() -> Option<i64>>(
    r: Option<PreparedSearchResult>,
    scope: SearchScope,
    path: Seq<char>,
    file_name: Option<Seq<char>>,
    is_dir: bool,
    root: IndexRoot,
    directory: DirectoryScanContext,
    before: Set<Seq<char>>,
    after: Set<Seq<char>>,
    threshold: int,
    load: F,
) -> bool {
    match path_fit(scope, path, file_name, is_dir, directory) {
        None => r is None && after == before,
        Some(text_score) => {
            &&& after == before.insert(text::fold(path))
            &&& if before.contains(text::fold(path)) {
                r is None
            } else {
                exists|item: LaunchItem, modified_at: Option<i64>|
                    #![trigger is_item_at(item, path, file_name, is_dir, root, directory, modified_at)]
                    is_item_at(item, path, file_name, is_dir, root, directory, modified_at)
                        && can_load(scope, load, modified_at) && becomes(
                        r,
                        scope,
                        item,
                        text_score,
                        threshold,
                    )
            }
        },
    }
}

/// Looks at a path. It becomes a candidate where its name fits the query, it has not
/// been seen before, and it can still reach the threshold.
pub fn consider_prepared_search_path<F: FnOnce() -> Option<i64>>(
    scope: &SearchScope,
    path: &str,
    file_name: &Option<String>,
    is_dir: bool,
    root: &RootScanContext,
    directory: &DirectoryScanContext,
    seen: &mut KeySet,
    scanned_total: &mut usize,
    prune_threshold: u64,
    load: F,
) -> (r: Option<PreparedSearchResult>)
    requires
        scope.well_formed(),
        old(seen).well_formed(),
        scope.scoring.recency_date_enabled ==> call_requires(load, ()),
    ensures
        final(seen).well_formed(),
        *final(scanned_total) == arith::min_int(*old(scanned_total) + 1, usize::MAX as int),
        considers(
            r,
            *scope,
            path@,
            text::optional(*file_name),
            is_dir,
            root.root,
            *directory,
            old(seen)@,
            final(seen)@,
            prune_threshold as int,
            load,
        ),
        r matches Some(found) ==> results::penalty_is_valid(found.candidate),
{
    *scanned_total = (*scanned_total).saturating_add(1);
    let prepared_name = match PreparedCandidateName::from_path_and_file_name(path, file_name) {
        Some(name) => name,
        None => {
            return None;
        },
    };
    let text_score = match scope.prepared.score_candidate_name(
        &prepared_name,
        directory.folded_parent.as_str(),
        is_dir,
        &scope.scoring,
    ) {
        Some(score) => score,
        None => {
            return None;
        },
    };
    let path_key = recents::recent_item_key(path);
    if !seen.insert(path_key.as_str()) {
        return None;
    }
    let modified_at = items::modified_at_for_scoring(&scope.scoring, load);
    let item = item_in_directory(path, is_dir, root, directory, prepared_name, modified_at);
    proof {
        assert(is_item_at(
            item,
            path@,
            text::optional(*file_name),
            is_dir,
            root.root,
            *directory,
            modified_at,
        ));
    }
    let upper_bound: i32 = breakdown::heuristic_score_upper_bound(
        &item,
        text_score,
        &scope.prepared,
        &scope.scoring,
    );
    if results::should_branch_prune(upper_bound, prune_threshold) {
        return None;
    }
    let candidate = scope.make_candidate(item, path_key.as_str(), text_score);
    Some(PreparedSearchResult { path_key, candidate })
}

// ---------------------------------------------------------------------------
// A path by itself
// ---------------------------------------------------------------------------

/// The directory that a path is in; the path itself where it is in none.
pub open spec fn directory_path(path: Seq<char>) -> Seq<char> {
    match winpath::parent(path) {
        Some(parent) => parent,
        None => path,
    }
}

/// The directory of a path, as it is found from the path and its search folder.
pub open spec fn is_directory_of(
    directory: DirectoryScanContext,
    path: Seq<char>,
    root: RootScanContext,
    working_directory: Seq<char>,
) -> bool {
    let parent = directory_path(path);
    &&& directory.path@ == parent
    &&& directory.subtitle@ == shown_directory(parent, root.root)
    &&& directory.folded_parent@ == text::searchable(parent)
    &&& directory.depth == (if root.root_key@.len() == 0 {
        0
    } else {
        match root_ownership::relative_depth(
            root_ownership::path_key(parent, working_directory),
            root.root_key@,
        ) {
            Some(depth) => depth,
            None => 0,
        }
    })
}

/// Finds the directory of a path.
pub fn directory_of(path: &str, root: &RootScanContext, working_directory: &str) -> (r:
    DirectoryScanContext)
    requires
        root.root_name@ == folder_name(root.root),
    ensures
        is_directory_of(r, path@, *root, working_directory@),
{
    let parent: String = match winpath::parent_of(path) {
        Some(parent) => parent,
        None => path.to_owned(),
    };
    let depth: usize = if root.root_key.as_str().is_empty() {
        0
    } else {
        let key = root_ownership::normalized_root_path_key(parent.as_str(), working_directory);
        match root_ownership::path_key_relative_depth(key.as_str(), root.root_key.as_str()) {
            Some(depth) => depth,
            None => 0,
        }
    };
    DirectoryScanContext::new(parent.as_str(), depth, root)
}

/// What comes of looking at a path by itself.
pub open spec fn considers_alone<F: FnOnce() -> Option<i64>>(
    r: Option<PreparedSearchResult>,
    scope: SearchScope,
    path: Seq<char>,
    is_dir: bool,
    root: RootScanContext,
    working_directory: Seq<char>,
    before: Set<Seq<char>>,
    after: Set<Seq<char>>,
    threshold: int,
    load: F,
) -> bool {
    exists|directory: DirectoryScanContext| #[trigger]
        is_directory_of(directory, path, root, working_directory) && considers(
            r,
            scope,
            path,
            None,
            is_dir,
            root.root,
            directory,
            before,
            after,
            threshold,
            load,
        )
}

/// Looks at a path by itself, for the candidate that it makes.
pub fn consider_ranked_search_path_with_type<F: FnOnce() -> Option<i64>>(
    scope: &SearchScope,
    path: &str,
    is_dir: bool,
    root: &RootScanContext,
    working_directory: &str,
    seen: &mut KeySet,
    scanned_total: &mut usize,
    prune_threshold: u64,
    load: F,
) -> (r: Option<RankedCandidate>)
    requires
        scope.well_formed(),
        old(seen).well_formed(),
        root.root_name@ == folder_name(root.root),
        scope.scoring.recency_date_enabled ==> call_requires(load, ()),
    ensures
        final(seen).well_formed(),
        *final(scanned_total) == arith::min_int(*old(scanned_total) + 1, usize::MAX as int),
        exists|found: Option<PreparedSearchResult>|
            #![trigger considers_alone(found, *scope, path@, is_dir, *root, working_directory@, old(seen)@, final(seen)@, prune_threshold as int, load)]
            considers_alone(
                found,
                *scope,
                path@,
                is_dir,
                *root,
                working_directory@,
                old(seen)@,
                final(seen)@,
                prune_threshold as int,
                load,
            ) && r == (match found {
                Some(prepared) => Some(prepared.candidate),
                None => None,
            }),
        r matches Some(candidate) ==> results::penalty_is_valid(candidate),
{
    let directory = directory_of(path, root, working_directory);
    let found = consider_prepared_search_path(
        scope,
        path,
        &None,
        is_dir,
        root,
        &directory,
        seen,
        scanned_total,
        prune_threshold,
        load,
    );
    proof {
        assert(is_directory_of(directory, path@, *root, working_directory@));
        assert(considers_alone(
            found,
            *scope,
            path@,
            is_dir,
            *root,
            working_directory@,
            old(seen)@,
            seen@,
            prune_threshold as int,
            load,
        ));
    }
    match found {
        Some(prepared) => Some(prepared.candidate),
        None => None,
    }
}

// ---------------------------------------------------------------------------
// How deep, and what is noted
// ---------------------------------------------------------------------------

/// The limit of a search folder is the depth of the deepest directory that is looked through:
/// the folder itself at no limit above nothing, one more level with each, and everything
/// without one.
pub proof fn lemma_depth_of_a_folder(root: IndexRoot, depth: usize)
    ensures
        looks_through(root, 0),
        root.max_depth == usize::MAX ==> looks_through(root, depth) && goes_deeper(root, depth),
        root.max_depth < usize::MAX ==> (looks_through(root, depth) <==> depth <= root.max_depth),
        depth < usize::MAX ==> (goes_deeper(root, depth) <==> looks_through(
            root,
            (depth + 1) as usize,
        )),
{
}

/// An item that was found in a directory has the title, the folder, the score and the depth
/// that its place gives it: a file lies as deep as its directory, a directory one deeper.
pub proof fn lemma_found_items(
    item: LaunchItem,
    path: Seq<char>,
    file_name: Option<Seq<char>>,
    is_dir: bool,
    root: IndexRoot,
    directory: DirectoryScanContext,
    modified_at: Option<i64>,
)
    requires
        is_item_at(item, path, file_name, is_dir, root, directory, modified_at),
        directory.depth < usize::MAX,
    ensures
        root.path is Some && !is_dir ==> item.relative_depth == directory.depth,
        root.path is Some && is_dir ==> item.relative_depth == directory.depth + 1,
        root.path is None ==> item.relative_depth == 0,
        item.path@ == path,
        item.is_dir == is_dir,
        item.index_score == root.score,
        item.subtitle@ == directory.subtitle@,
        item.modified_at_unix_seconds == modified_at,
        file_name matches Some(name) && text::trimmed(name).len() > 0 ==> item.title@
            == text::trimmed(file_name->0),
        file_name is None || text::trimmed(file_name->0).len() == 0 ==> item.title@ == path,
        item.folded_title@ == text::fold(item.title@),
{
}

/// What was seen before is not found again, and what does not fit is not noted as seen.
pub proof fn lemma_nothing_is_found_twice<F: FnOnce() -> Option<i64>>(
    r: Option<PreparedSearchResult>,
    scope: SearchScope,
    path: Seq<char>,
    file_name: Option<Seq<char>>,
    is_dir: bool,
    root: IndexRoot,
    directory: DirectoryScanContext,
    before: Set<Seq<char>>,
    after: Set<Seq<char>>,
    threshold: int,
    load: F,
)
    requires
        considers(
            r,
            scope,
            path,
            file_name,
            is_dir,
            root,
            directory,
            before,
            after,
            threshold,
            load,
        ),
    ensures
        before.contains(text::fold(path)) ==> r is None,
        r is Some ==> after.contains(text::fold(path)) && r->0.path_key@ == text::fold(path),
        path_fit(scope, path, file_name, is_dir, directory) is None ==> r is None && after
            == before,
        path_fit(scope, path, file_name, is_dir, directory) is Some && !before.contains(
            text::fold(path),
        ) && threshold == 0 ==> r is Some,
        forall|key: Seq<char>| #[trigger]
            after.contains(key) <==> before.contains(key) || (key == text::fold(path) && path_fit(
                scope,
                path,
                file_name,
                is_dir,
                directory,
            ) is Some),
{
}

/// When dates do not count they are not looked up, and when they do, the date is the one that
/// is found.
pub proof fn lemma_when_dates_are_looked_up<F: FnOnce() -> Option<i64>>(
    scope: SearchScope,
    load: F,
    modified_at: Option<i64>,
)
    requires
        can_load(scope, load, modified_at),
    ensures
        !scope.scoring.recency_date_enabled ==> modified_at is None,
        scope.scoring.recency_date_enabled ==> call_ensures(load, (), modified_at),
{
}

/// What fits becomes a result, unless it cannot come among the best any more.
pub proof fn lemma_what_fits_becomes_a_result(
    r: Option<PreparedSearchResult>,
    scope: SearchScope,
    item: LaunchItem,
    text_score: i32,
    threshold: int,
)
    requires
        becomes(r, scope, item, text_score, threshold),
    ensures
        threshold == 0 ==> r is Some,
        r matches Some(found) ==> found.path_key@ == text::fold(item.path@) && found.candidate
            == scope.candidate_of(item, text_score),
        r is None ==> results::primary_rank(false, scope.bound_of(item, text_score)) < threshold,
{
}

/// A search folder is called by its own name wherever its items are shown.
pub proof fn lemma_names_of_folders(root: IndexRoot)
    ensures
        root.path matches Some(folder) ==> folder_name(root) == items::root_display(
            root.raw@,
            folder@,
        ),
        root.path is None ==> folder_name(root) == items::unslashed(root.raw@),
{
}

} // verus!
