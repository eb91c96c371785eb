//! Which search folders answer a query.

use crate::document;
use crate::index_roots::SEARCH_DEPTH_ALL;
use crate::query_rules;
use crate::root_ownership;
use crate::root_ownership::{RootOwnershipEntry, RootOwnershipPlan};
use crate::scoring;
use crate::text;
use crate::types;
use crate::types::IndexRoot;
use vstd::prelude::*;

verus! {

/// A search folder answers a query with the given keywords.
pub open spec fn root_applies(
    root: IndexRoot,
    modifiers: Seq<Seq<char>>,
    any_match: bool,
) -> bool {
    scoring::keywords_apply(text::texts(root.keywords@), modifiers, any_match)
}

/// Whether a search folder answers a query with the given keywords.
pub fn root_matches_query_modifiers(
    root: &IndexRoot,
    modifiers: &[String],
    any_modifier_match: bool,
) -> (r: bool)
    ensures
        r == root_applies(*root, text::texts(modifiers@), any_modifier_match),
{
    scoring::modifier_keywords_apply(root.keywords.as_slice(), modifiers, any_modifier_match)
}

/// Some folder asks for one of the keywords.
pub open spec fn any_root_matches(
    entries: Seq<RootOwnershipEntry>,
    modifiers: Seq<Seq<char>>,
) -> bool {
    exists|i: int|
        0 <= i < entries.len() && scoring::keywords_match(
            text::texts((#[trigger] entries[i]).root.keywords@),
            modifiers,
        )
}

/// Whether some folder asks for one of the keywords.
pub fn any_root_modifier_match(plan: &RootOwnershipPlan, modifiers: &[String]) -> (r: bool)
    ensures
        r == any_root_matches(plan.entries@, text::texts(modifiers@)),
{
    let mut i: usize = 0;
    while i < plan.entries.len()
        invariant
            i <= plan.entries.len(),
            forall|k: int|
                0 <= k < i ==> !scoring::keywords_match(
                    text::texts((#[trigger] plan.entries@[k]).root.keywords@),
                    text::texts(modifiers@),
                ),
        decreases plan.entries.len() - i,
    {
        if scoring::modifier_keywords_match(
            plan.entries[i].root.keywords.as_slice(),
            modifiers,
        ) {
            proof {
                assert(scoring::keywords_match(
                    text::texts(plan.entries@[i as int].root.keywords@),
                    text::texts(modifiers@),
                ));
            }
            return true;
        }
        i += 1;
    }
    false
}

/// How many pieces below a folder a path lies; none where it does not.
pub open spec fn depth_from_root(
    path: Seq<char>,
    root: IndexRoot,
    working_directory: Seq<char>,
) -> Option<nat> {
    match root.path {
        None => None,
        Some(folder) => root_ownership::relative_depth(
            root_ownership::path_key(path, working_directory),
            root_ownership::path_key(folder@, working_directory),
        ),
    }
}

/// How many pieces below a folder a path lies.
pub fn path_depth_from_root(path: &str, root: &IndexRoot, working_directory: &str) -> (r: Option<
    usize,
>)
    ensures
        match depth_from_root(path@, *root, working_directory@) {
            None => r is None,
            Some(n) => r matches Some(found) && found == n,
        },
{
    match &root.path {
        None => None,
        Some(folder) => {
            let path_key = root_ownership::normalized_root_path_key(path, working_directory);
            let root_key = root_ownership::normalized_root_path_key(
                folder.as_str(),
                working_directory,
            );
            root_ownership::path_key_relative_depth(path_key.as_str(), root_key.as_str())
        },
    }
}

/// A depth that a folder reaches: its items lie one piece deeper than their folders.
pub open spec fn depth_reached(root: IndexRoot, depth: nat) -> bool {
    root.max_depth == SEARCH_DEPTH_ALL || depth <= root.max_depth + 1
}

/// A path lies in a folder, and no deeper than the folder reaches.
pub open spec fn within_depth(path: Seq<char>, root: IndexRoot, working_directory: Seq<char>) -> bool {
    depth_from_root(path, root, working_directory) matches Some(depth) && depth_reached(root, depth)
}

/// Whether a path lies in a folder, and no deeper than the folder reaches.
pub fn path_is_within_root_depth(path: &str, root: &IndexRoot, working_directory: &str) -> (r: bool)
    ensures
        r == within_depth(path@, *root, working_directory@),
{
    match path_depth_from_root(path, root, working_directory) {
        None => false,
        Some(depth) => root.max_depth == SEARCH_DEPTH_ALL || depth <= root.max_depth.saturating_add(
            1,
        ),
    }
}

/// An entry that holds a path and answers a query.
pub open spec fn eligible(
    entries: Seq<RootOwnershipEntry>,
    key: Seq<char>,
    modifiers: Seq<Seq<char>>,
    any_match: bool,
    i: int,
) -> bool {
    root_ownership::holds(entries, key, i) && root_applies(entries[i].root, modifiers, any_match)
}

/// The innermost entry that holds a path and answers a query.
pub open spec fn deepest(
    entries: Seq<RootOwnershipEntry>,
    key: Seq<char>,
    modifiers: Seq<Seq<char>>,
    any_match: bool,
    i: int,
) -> bool {
    &&& eligible(entries, key, modifiers, any_match, i)
    &&& forall|j: int|
        j != i && #[trigger] eligible(entries, key, modifiers, any_match, j)
            ==> entries[j].key@.len() < entries[i].key@.len()
}

proof fn lemma_lengths_differ(entries: Seq<RootOwnershipEntry>, key: Seq<char>, i: int, j: int)
    requires
        root_ownership::keys_of(entries).no_duplicates(),
        root_ownership::holds(entries, key, i),
        root_ownership::holds(entries, key, j),
        i != j,
    ensures
        entries[i].key@.len() != entries[j].key@.len(),
{
    root_ownership::lemma_within_begins(key, entries[i].key@);
    root_ownership::lemma_within_begins(key, entries[j].key@);
    let keys = root_ownership::keys_of(entries);
    assert(keys[i] == entries[i].key@ && keys[j] == entries[j].key@);
    assert(keys[i] != keys[j]);
}

/// The place of the innermost entry that holds a path and answers a query.
pub fn deepest_eligible_index(
    plan: &RootOwnershipPlan,
    path_key: &str,
    modifiers: &[String],
    any_match: bool,
) -> (r: Option<usize>)
    requires
        plan.well_formed(),
    ensures
        match r {
            Some(i) => deepest(
                plan.entries@,
                path_key@,
                text::texts(modifiers@),
                any_match,
                i as int,
            ),
            None => forall|i: int|
                !eligible(plan.entries@, path_key@, text::texts(modifiers@), any_match, i),
        },
{
    let ghost entries = plan.entries@;
    let ghost wanted = text::texts(modifiers@);
    let mut best: Option<usize> = None;
    let mut best_size: usize = 0;
    let mut i: usize = 0;
    while i < plan.entries.len()
        invariant
            i <= plan.entries.len(),
            plan.well_formed(),
            entries == plan.entries@,
            wanted == text::texts(modifiers@),
            match best {
                Some(b) => {
                    &&& b < i
                    &&& best_size == entries[b as int].key@.len()
                    &&& eligible(entries, path_key@, wanted, any_match, b as int)
                    &&& forall|j: int|
                        j != b && 0 <= j < i && #[trigger] eligible(
                            entries,
                            path_key@,
                            wanted,
                            any_match,
                            j,
                        ) ==> entries[j].key@.len() < entries[b as int].key@.len()
                },
                None => forall|j: int|
                    0 <= j < i ==> !eligible(entries, path_key@, wanted, any_match, j),
            },
        decreases plan.entries.len() - i,
    {
        let entry = &plan.entries[i];
        if root_ownership::path_key_is_within(path_key, entry.key.as_str())
            && root_matches_query_modifiers(&entry.root, modifiers, any_match) {
            let size: usize = text::chars_of(entry.key.as_str()).len();
            proof {
                assert(eligible(entries, path_key@, wanted, any_match, i as int));
                if let Some(b) = best {
                    lemma_lengths_differ(entries, path_key@, b as int, i as int);
                }
            }
            let better = match best {
                Some(_) => size > best_size,
                None => true,
            };
            if better {
                best = Some(i);
                best_size = size;
            }
        } else {
            proof {
                assert(!eligible(entries, path_key@, wanted, any_match, i as int));
            }
        }
        i += 1;
    }
    best
}

/// The innermost entry that holds a path and answers a query.
pub fn deepest_eligible_root_for_path<'a>(
    plan: &'a RootOwnershipPlan,
    path: &str,
    modifiers: &[String],
    any_match: bool,
    working_directory: &str,
) -> (r: Option<&'a RootOwnershipEntry>)
    requires
        plan.well_formed(),
    ensures
        ({
            let key = root_ownership::path_key(path@, working_directory@);
            match r {
                Some(entry) => exists|i: int|
                    deepest(plan.entries@, key, text::texts(modifiers@), any_match, i) && *entry
                        == plan.entries@[i],
                None => forall|i: int|
                    !eligible(plan.entries@, key, text::texts(modifiers@), any_match, i),
            }
        }),
{
    let key = root_ownership::normalized_root_path_key(path, working_directory);
    match deepest_eligible_index(plan, key.as_str(), modifiers, any_match) {
        Some(i) => Some(&plan.entries[i]),
        None => None,
    }
}

/// The folder that a path launched before belongs to.
pub open spec fn stands_for(
    root: IndexRoot,
    path: Seq<char>,
    plan: RootOwnershipPlan,
    default_depth: usize,
    working_directory: Seq<char>,
) -> bool {
    let key = root_ownership::path_key(path, working_directory);
    if exists|i: int| root_ownership::owns(plan.entries@, key, i) {
        exists|i: int|
            root_ownership::owns(plan.entries@, key, i) && types::same_root(
                root,
                plan.entries@[i].root,
            )
    } else {
        query_rules::own_folder(root, path, default_depth, ""@)
    }
}

proof fn lemma_holder_means_owner(entries: Seq<RootOwnershipEntry>, key: Seq<char>, i: int)
    requires
        root_ownership::owns(entries, key, i),
    ensures
        root_ownership::holds(entries, key, i),
{
}

/// The folder that a path launched before belongs to: the search folder that owns it
/// or, where none does, its own folder.
pub fn recent_path_root(
    path: &str,
    plan: &RootOwnershipPlan,
    default_depth: usize,
    working_directory: &str,
) -> (r: IndexRoot)
    requires
        plan.well_formed(),
    ensures
        stands_for(r, path@, *plan, default_depth, working_directory@),
{
    match plan.owner(path, working_directory) {
        Some(entry) => entry.root.copy(),
        None => {
            proof {
                let key = root_ownership::path_key(path@, working_directory@);
                if exists|i: int| root_ownership::owns(plan.entries@, key, i) {
                    let i = choose|i: int| root_ownership::owns(plan.entries@, key, i);
                    lemma_holder_means_owner(plan.entries@, key, i);
                }
            }
            query_rules::folder_of_path(path, default_depth, "")
        },
    }
}

/// A folder to search in, with the folder whose settings hold there.
#[derive(Debug, PartialEq, Eq)]
pub struct EligibleSearchRoot {
    pub path: String,
    pub source_root: IndexRoot,
    pub effective_root: IndexRoot,
    pub exclusions: Vec<String>,
    pub effective_depth: usize,
}

/// The folder whose settings hold in an entry reaches it.
pub open spec fn reached(
    entries: Seq<RootOwnershipEntry>,
    modifiers: Seq<Seq<char>>,
    any_match: bool,
    working_directory: Seq<char>,
    i: int,
    j: int,
) -> bool {
    let path = entries[i].path@;
    &&& deepest(
        entries,
        root_ownership::path_key(path, working_directory),
        modifiers,
        any_match,
        j,
    )
    &&& within_depth(path, entries[j].root, working_directory)
}

/// Which entries are searched.
pub open spec fn searched(
    entries: Seq<RootOwnershipEntry>,
    modifiers: Seq<Seq<char>>,
    any_match: bool,
    working_directory: Seq<char>,
) -> Seq<bool> {
    Seq::new(
        entries.len(),
        |i: int|
            exists|j: int| reached(entries, modifiers, any_match, working_directory, i, j),
    )
}

/// The folder to search in for an entry.
pub open spec fn searches(
    found: EligibleSearchRoot,
    entries: Seq<RootOwnershipEntry>,
    modifiers: Seq<Seq<char>>,
    any_match: bool,
    working_directory: Seq<char>,
    i: int,
) -> bool {
    &&& found.path@ == entries[i].path@
    &&& types::same_root(found.source_root, entries[i].root)
    &&& text::texts(found.exclusions@) == text::texts(entries[i].exclusions@)
    &&& exists|j: int| #[trigger]
        reached(entries, modifiers, any_match, working_directory, i, j) && types::same_root(
            found.effective_root,
            entries[j].root,
        ) && depth_from_root(entries[i].path@, entries[j].root, working_directory) == Some(
            found.effective_depth as nat,
        )
}

proof fn lemma_one_deepest(
    entries: Seq<RootOwnershipEntry>,
    key: Seq<char>,
    modifiers: Seq<Seq<char>>,
    any_match: bool,
    i: int,
    j: int,
)
    requires
        deepest(entries, key, modifiers, any_match, i),
        deepest(entries, key, modifiers, any_match, j),
    ensures
        i == j,
{
    assert(eligible(entries, key, modifiers, any_match, i));
    assert(eligible(entries, key, modifiers, any_match, j));
}

fn eligible_root_at(
    plan: &RootOwnershipPlan,
    i: usize,
    modifiers: &[String],
    any_match: bool,
    working_directory: &str,
) -> (r: Option<EligibleSearchRoot>)
    requires
        plan.well_formed(),
        i < plan.entries@.len(),
    ensures
        match r {
            Some(found) => searched(
                plan.entries@,
                text::texts(modifiers@),
                any_match,
                working_directory@,
            )[i as int] && searches(
                found,
                plan.entries@,
                text::texts(modifiers@),
                any_match,
                working_directory@,
                i as int,
            ),
            None => !searched(
                plan.entries@,
                text::texts(modifiers@),
                any_match,
                working_directory@,
            )[i as int],
        },
{
    let entry = &plan.entries[i];
    let key = root_ownership::normalized_root_path_key(entry.path.as_str(), working_directory);
    let ghost wanted = text::texts(modifiers@);
    match deepest_eligible_index(plan, key.as_str(), modifiers, any_match) {
        None => {
            proof {
                assert forall|j: int| !reached(
                    plan.entries@,
                    wanted,
                    any_match,
                    working_directory@,
                    i as int,
                    j,
                ) by {
                    assert(!eligible(plan.entries@, key@, wanted, any_match, j));
                }
            }
            None
        },
        Some(j) => {
            let effective = &plan.entries[j].root;
            let depth = path_depth_from_root(entry.path.as_str(), effective, working_directory);
            let inside = path_is_within_root_depth(
                entry.path.as_str(),
                effective,
                working_directory,
            );
            proof {
                assert forall|m: int|
                    reached(plan.entries@, wanted, any_match, working_directory@, i as int, m) implies m
                    == j by {
                    lemma_one_deepest(plan.entries@, key@, wanted, any_match, m, j as int);
                }
                assert(inside == reached(
                    plan.entries@,
                    wanted,
                    any_match,
                    working_directory@,
                    i as int,
                    j as int,
                ));
            }
            match depth {
                Some(effective_depth) => {
                    if inside {
                        Some(
                            EligibleSearchRoot {
                                path: entry.path.clone(),
                                source_root: entry.root.copy(),
                                effective_root: effective.copy(),
                                exclusions: types::copy_strings(entry.exclusions.as_slice()),
                                effective_depth,
                            },
                        )
                    } else {
                        None
                    }
                },
                None => None,
            }
        },
    }
}

/// The folders to search in for a query.
pub fn eligible_search_roots(
    plan: &RootOwnershipPlan,
    modifiers: &[String],
    any_match: bool,
    working_directory: &str,
) -> (r: Vec<EligibleSearchRoot>)
    requires
        plan.well_formed(),
    ensures
        ({
            let wanted = text::texts(modifiers@);
            let rows = document::marked(
                searched(plan.entries@, wanted, any_match, working_directory@),
                plan.entries@.len() as int,
            );
            &&& r@.len() == rows.len()
            &&& forall|k: int|
                0 <= k < rows.len() ==> searches(
                    #[trigger] r@[k],
                    plan.entries@,
                    wanted,
                    any_match,
                    working_directory@,
                    rows[k],
                )
        }),
{
    let ghost wanted = text::texts(modifiers@);
    let ghost marks = searched(plan.entries@, wanted, any_match, working_directory@);
    let mut out: Vec<EligibleSearchRoot> = Vec::new();
    let mut i: usize = 0;
    while i < plan.entries.len()
        invariant
            i <= plan.entries.len(),
            plan.well_formed(),
            wanted == text::texts(modifiers@),
            marks == searched(plan.entries@, wanted, any_match, working_directory@),
            out@.len() == document::marked(marks, i as int).len(),
            forall|k: int|
                0 <= k < out@.len() ==> searches(
                    #[trigger] out@[k],
                    plan.entries@,
                    wanted,
                    any_match,
                    working_directory@,
                    document::marked(marks, i as int)[k],
                ),
        decreases plan.entries.len() - i,
    {
        let ghost rows = document::marked(marks, i as int);
        let ghost before = out@;
        if let Some(found) = eligible_root_at(plan, i, modifiers, any_match, working_directory) {
            out.push(found);
            proof {
                let longer = document::marked(marks, i + 1);
                assert forall|k: int| 0 <= k < out@.len() implies searches(
                    #[trigger] out@[k],
                    plan.entries@,
                    wanted,
                    any_match,
                    working_directory@,
                    longer[k],
                ) by {
                    if k < before.len() {
                        assert(out@[k] == before[k]);
                        assert(longer[k] == rows[k]);
                    }
                }
            }
        }
        i += 1;
    }
    out
}

// ---------------------------------------------------------------------------
// Plain queries
// ---------------------------------------------------------------------------

/// A query without modifiers is answered by a search folder only where that has no keywords
/// or one of them is the text `[blank]`.
pub proof fn lemma_reserved_folders_stay_out(root: IndexRoot, any_match: bool)
    ensures
        root_applies(root, Seq::empty(), any_match) <==> root.keywords@.len() == 0 || exists|k: int|
            0 <= k < root.keywords@.len() && (#[trigger] root.keywords@[k])@ == "[blank]"@,
{
    let keywords = text::texts(root.keywords@);
    scoring::lemma_plain_query_is_for_blank(keywords);
    assert(keywords.len() == root.keywords@.len());
    if exists|k: int| 0 <= k < root.keywords@.len() && (#[trigger] root.keywords@[k])@ == "[blank]"@ {
        let k = choose|k: int|
            0 <= k < root.keywords@.len() && (#[trigger] root.keywords@[k])@ == "[blank]"@;
        assert(keywords[k] == "[blank]"@);
    }
    if exists|i: int| 0 <= i < keywords.len() && #[trigger] keywords[i] == "[blank]"@ {
        let i = choose|i: int| 0 <= i < keywords.len() && #[trigger] keywords[i] == "[blank]"@;
        assert(root.keywords@[i]@ == "[blank]"@);
    }
}

/// A folder whose settings hold in what is searched for a query holds what is searched,
/// answers the query, and no folder further in that holds it does.
pub proof fn lemma_settings_come_from_the_innermost(
    entries: Seq<RootOwnershipEntry>,
    modifiers: Seq<Seq<char>>,
    any_match: bool,
    working_directory: Seq<char>,
    i: int,
    j: int,
    k: int,
)
    requires
        reached(entries, modifiers, any_match, working_directory, i, j),
        0 <= k < entries.len(),
        root_ownership::within(
            root_ownership::path_key(entries[i].path@, working_directory),
            entries[k].key@,
        ),
        entries[k].key@.len() > entries[j].key@.len(),
    ensures
        0 <= j < entries.len(),
        scoring::keywords_apply(text::texts(entries[j].root.keywords@), modifiers, any_match),
        !scoring::keywords_apply(text::texts(entries[k].root.keywords@), modifiers, any_match),
{
    let key = root_ownership::path_key(entries[i].path@, working_directory);
    if root_applies(entries[k].root, modifiers, any_match) {
        assert(eligible(entries, key, modifiers, any_match, k));
    }
}

/// What is found may lie one deeper than what is looked through: the limit of a folder is that
/// of the directories, and what is in them counts.
pub proof fn lemma_depth_of_what_is_found(root: IndexRoot, depth: nat)
    ensures
        depth_reached(root, 0),
        depth_reached(root, 1),
        depth_reached(root, depth + 1) ==> depth_reached(root, depth),
        root.max_depth < SEARCH_DEPTH_ALL ==> (depth_reached(root, depth + 1) <==> depth
            <= root.max_depth),
        root.max_depth == SEARCH_DEPTH_ALL ==> depth_reached(root, depth),
{
}

/// A folder that answers a query is searched, and by its own settings.
pub proof fn lemma_folders_that_answer_are_searched(
    plan: RootOwnershipPlan,
    modifiers: Seq<Seq<char>>,
    any_match: bool,
    working_directory: Seq<char>,
    i: int,
)
    requires
        plan.well_formed(),
        0 <= i < plan.entries@.len(),
        plan.entries@[i].key@ == root_ownership::path_key(
            plan.entries@[i].path@,
            working_directory,
        ),
        plan.entries@[i].root.path matches Some(own) && own@ == plan.entries@[i].path@,
        root_applies(plan.entries@[i].root, modifiers, any_match),
    ensures
        reached(plan.entries@, modifiers, any_match, working_directory, i, i),
        searched(plan.entries@, modifiers, any_match, working_directory)[i],
{
    let entries = plan.entries@;
    let key = root_ownership::path_key(entries[i].path@, working_directory);
    assert(root_ownership::holds(entries, key, i));
    assert forall|j: int|
        j != i && #[trigger] eligible(
            entries,
            key,
            modifiers,
            any_match,
            j,
        ) implies entries[j].key@.len() < entries[i].key@.len() by {
        lemma_lengths_differ(entries, key, i, j);
        root_ownership::lemma_within_begins(key, entries[j].key@);
    }
    assert(deepest(entries, key, modifiers, any_match, i));
    root_ownership::lemma_one_step_deeper(key, key, seq!['a']);
    assert(within_depth(entries[i].path@, entries[i].root, working_directory));
    assert(reached(entries, modifiers, any_match, working_directory, i, i));
}

/// A folder that no other holds is not searched where it does not answer the query.
pub proof fn lemma_folders_that_do_not_answer(
    entries: Seq<RootOwnershipEntry>,
    modifiers: Seq<Seq<char>>,
    any_match: bool,
    working_directory: Seq<char>,
    i: int,
)
    requires
        0 <= i < entries.len(),
        forall|j: int|
            0 <= j < entries.len() && root_ownership::within(
                root_ownership::path_key(entries[i].path@, working_directory),
                (#[trigger] entries[j]).key@,
            ) ==> !root_applies(entries[j].root, modifiers, any_match),
    ensures
        !searched(entries, modifiers, any_match, working_directory)[i],
{
    if searched(entries, modifiers, any_match, working_directory)[i] {
        let j = choose|j: int| reached(entries, modifiers, any_match, working_directory, i, j);
        assert(reached(entries, modifiers, any_match, working_directory, i, j));
        assert(root_ownership::within(
            root_ownership::path_key(entries[i].path@, working_directory),
            entries[j].key@,
        ));
    }
}

} // verus!
