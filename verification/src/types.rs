//! The data that searching, scoring and ranking work on. Paths are texts.

use crate::text;
use vstd::prelude::*;

verus! {

/// The kind of evidence a result is ranked by.
#[derive(Clone, Copy, Debug, PartialEq, Eq, Structural)]
pub enum ResultRankingKind {
    Heuristic,
    RecentOrder,
    QueryLaunchRule,
    Plugin,
}

/// A pattern with the score that a matching item gets.
#[derive(Debug, PartialEq, Eq)]
pub struct PatternRule {
    pub pattern: String,
    pub folded_pattern: String,
    pub score: i32,
    pub modifiers: Vec<String>,
}

/// The weights of the scoring rules.
#[derive(Debug, PartialEq, Eq)]
pub struct ScoringConfig {
    pub recent_first_launch_score: i32,
    pub recent_launch_increment: i32,
    pub exact_match_bonus: i32,
    pub exact_word_bonus: i32,
    pub prefix_match_bonus: i32,
    pub word_boundary_bonus: i32,
    pub consecutive_match_bonus: i32,
    pub acronym_match_bonus: i32,
    pub leftmost_match_bonus: i32,
    pub leftmost_distance_penalty: i32,
    pub length_score_weight: i32,
    pub compact_match_bonus: i32,
    pub recent_score_ceiling: i32,
    pub explicit_folder_name_match_adjustment: i32,
    pub folder_score_as_file_score_percent: i32,
    pub path_depth_penalty: i32,
    pub recency_date_bonus: i32,
    pub recency_date_enabled: bool,
    pub pattern_rules: Vec<PatternRule>,
}

/// The parts of a heuristic score and their sum.
#[derive(Clone, Copy, Debug, PartialEq, Eq, Structural)]
pub struct HeuristicScoreComponents {
    pub text_score: i32,
    pub path_score: i32,
    pub index_score: i32,
    pub pattern_score: i32,
    pub history_score: i32,
    pub recency_score: i32,
    pub folder_score: i32,
    pub path_penalty: i32,
    pub final_score: i32,
}

/// Something that can be launched, with the folded texts it is found by.
#[derive(Debug, PartialEq, Eq)]
pub struct LaunchItem {
    pub title: String,
    pub subtitle: String,
    pub path: String,
    pub is_dir: bool,
    pub folded_title: String,
    pub folded_stem: String,
    pub folded_parent: String,
    pub index_score: i32,
    pub modified_at_unix_seconds: Option<i64>,
    pub search_root: Option<String>,
    pub relative_depth: usize,
}

/// A configured search folder.
#[derive(Debug, PartialEq, Eq)]
pub struct IndexRoot {
    pub raw: String,
    pub path: Option<String>,
    pub enabled: bool,
    pub score: i32,
    pub max_depth: usize,
    pub label: String,
    pub keywords: Vec<String>,
}

// ---------------------------------------------------------------------------
// Copies
// ---------------------------------------------------------------------------

/// Two lists of strings hold the same texts.
pub open spec fn same_strings(a: Seq<String>, b: Seq<String>) -> bool {
    text::texts(a) == text::texts(b)
}

/// Copies a list of strings.
pub fn copy_strings(v: &[String]) -> (r: Vec<String>)
    ensures
        same_strings(r@, v@),
        r@ =~= v@,
{
    let mut out: Vec<String> = Vec::new();
    let mut i: usize = 0;
    while i < v.len()
        invariant
            i <= v.len(),
            out@ =~= v@.take(i as int),
        decreases v.len() - i,
    {
        out.push(v[i].clone());
        i += 1;
    }
    proof {
        assert(v@.take(v@.len() as int) =~= v@);
    }
    out
}

/// Copies an optional string.
pub fn copy_optional(v: &Option<String>) -> (r: Option<String>)
    ensures
        r == *v,
{
    match v {
        Some(s) => Some(s.clone()),
        None => None,
    }
}

/// Two search folders with the same settings.
pub open spec fn same_root(a: IndexRoot, b: IndexRoot) -> bool {
    &&& a.raw@ == b.raw@
    &&& a.path == b.path
    &&& a.enabled == b.enabled
    &&& a.score == b.score
    &&& a.max_depth == b.max_depth
    &&& a.label@ == b.label@
    &&& same_strings(a.keywords@, b.keywords@)
}

impl IndexRoot {
    /// A copy of the folder.
    pub fn copy(&self) -> (r: IndexRoot)
        ensures
            same_root(r, *self),
            r.keywords@ =~= self.keywords@,
    {
        IndexRoot {
            raw: self.raw.clone(),
            path: copy_optional(&self.path),
            enabled: self.enabled,
            score: self.score,
            max_depth: self.max_depth,
            label: self.label.clone(),
            keywords: copy_strings(self.keywords.as_slice()),
        }
    }
}

impl LaunchItem {
    /// A copy of the item.
    pub fn copy(&self) -> (r: LaunchItem)
        ensures
            r == *self,
    {
        LaunchItem {
            title: self.title.clone(),
            subtitle: self.subtitle.clone(),
            path: self.path.clone(),
            is_dir: self.is_dir,
            folded_title: self.folded_title.clone(),
            folded_stem: self.folded_stem.clone(),
            folded_parent: self.folded_parent.clone(),
            index_score: self.index_score,
            modified_at_unix_seconds: self.modified_at_unix_seconds,
            search_root: copy_optional(&self.search_root),
            relative_depth: self.relative_depth,
        }
    }
}

/// How a query is answered.
#[derive(Clone, Copy, Debug, PartialEq, Eq, Structural)]
pub enum SearchQueryMode {
    BlankHistory,
    NormalSearch,
    DirectoryBrowse,
}

/// A directory to list and the text that its entries are filtered by.
#[derive(Debug, PartialEq, Eq)]
pub struct DirectoryBrowseSpec {
    pub base: String,
    pub filter: String,
}

/// A query taken apart.
#[derive(Debug, PartialEq, Eq)]
pub struct SearchQuerySpec {
    pub raw: String,
    pub search_text: String,
    pub folded_search_text: String,
    pub modifiers: Vec<String>,
    pub scoring_modifiers: Vec<String>,
    pub show_all: bool,
    pub mode: SearchQueryMode,
    pub directory: Option<DirectoryBrowseSpec>,
    pub scoring_time_unix_seconds: i64,
}

} // verus!
