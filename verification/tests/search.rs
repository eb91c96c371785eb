use std::collections::HashMap;

use flash_launch::aliases::Environment;
use flash_launch::breakdown::heuristic_score_upper_bound;
use flash_launch::collect::{HistoryEntry, HistoryTable};
use flash_launch::debug_search::{may_visit, DebugSearch};
use flash_launch::items::{launch_item_from_path_with_type, launch_item_from_prepared_candidate};
use flash_launch::index_roots::SEARCH_DEPTH_ALL;
use flash_launch::keyset::KeySet;
use flash_launch::presentation::{result_target_text, visible_results_signature};
use flash_launch::query::parse_search_query;
use flash_launch::query_rules::PathState;
use flash_launch::recent_paths::{
    collect_recent_path_match_breakdowns_with_detail, MatchScope, RecentPath,
};
use flash_launch::recents::recent_item_key;
use flash_launch::refinement::{
    query_specs_allow_refinement, refinement_all_results, refinement_progress_due,
    refinement_requests_compatible, NameCheck, PreparedCandidate, RefinementPublish,
    RefinementSession,
};
use flash_launch::result_store::{
    append_header, read_header, read_records, RunMerger, StoreProgress, HEADER_BYTES,
};
use flash_launch::results::{
    bounded_ranked_threshold, heuristic_primary_rank, materialize_ranked_candidate,
    result_target_path, score_breakdown_with_config, should_branch_prune, LaunchTarget,
    RankedCandidate, SearchResult,
};
use flash_launch::root_ownership::{
    build_plan, normalized_root_path_key, path_is_in_excluded_subtree, RootOwnershipPlan,
};
use flash_launch::scan::{
    consider_prepared_search_path, item_in_directory, may_descend, may_scan, skips_entry,
    DirectoryScanContext, RootScanContext, SearchScope,
};
use flash_launch::scan_tasks::{
    child_tasks, first_task, live_scan_strategy, ScanFolder, ScanStep, ScanTask, ScanTaskQueue,
};
use flash_launch::scoring::PreparedCandidateName;
use flash_launch::search_progress::{
    materialize_ranked_candidates, LocalSearchProgress, SearchProgress,
};
use flash_launch::search_roots::{
    any_root_modifier_match, eligible_search_roots, EligibleSearchRoot,
};
use flash_launch::search_worker::{
    ResultStoreCompletion, SearchBatch, SearchLimits, SearchStage, SearchWorkerRequest,
};
use flash_launch::store_builder::{PushStep, ResultStoreBuilder, ResultStoreManifest, RunOutput};
use flash_launch::store_codec::StoredResultRecord;
use flash_launch::store_reader::{open_store, read_page, ResultStoreReader};
use flash_launch::streaming::{
    is_active_search_generation, search_way, split_entries, DirectorySearch, FilterReading,
    FoundEntry, SearchRun, SearchWay,
};
use flash_launch::text::{fold_text, searchable_text};
use flash_launch::types::{
    IndexRoot, PatternRule, ResultRankingKind, ScoringConfig, SearchQueryMode, SearchQuerySpec,
};
use flash_launch::wording::Wording;

const WORKING_DIRECTORY: &str = r"C:\Work";
const DEFAULT_LIMIT: usize = 99;
const CACHE_LIMIT: usize = 64 * 1024 * 1024;

// ---------------------------------------------------------------------------
// A tree of files in memory
// ---------------------------------------------------------------------------

struct Tree {
    paths: Vec<(String, bool)>,
}

fn join(parent: &str, name: &str) -> String {
    format!("{parent}\\{name}")
}

impl Tree {
    fn new() -> Tree {
        Tree { paths: Vec::new() }
    }

    fn file(&mut self, parent: &str, name: &str) -> String {
        let path = join(parent, name);
        self.paths.push((path.clone(), false));
        path
    }

    fn directory(&mut self, parent: &str, name: &str) -> String {
        let path = join(parent, name);
        self.paths.push((path.clone(), true));
        path
    }

    fn entries(&self, parent: &str) -> Vec<FoundEntry> {
        let mut found = Vec::new();
        for (path, is_dir) in &self.paths {
            let (above, name) = path.rsplit_once('\\').unwrap();
            if above == parent {
                found.push(FoundEntry {
                    path: path.clone(),
                    file_name: name.to_string(),
                    is_dir: *is_dir,
                    is_reparse_point: false,
                    modified_at: None,
                });
            }
        }
        found
    }
}

fn environment() -> Environment {
    Environment {
        variables: Vec::new(),
        app_dir: r"C:\App".to_string(),
    }
}

fn query(raw: &str) -> SearchQuerySpec {
    parse_search_query(raw, 1_700_000_000, &environment(), false, false)
}

fn scoring_query(raw: &str) -> SearchQuerySpec {
    query(raw).effective_for_scoring()
}

fn no_history() -> HistoryTable {
    HistoryTable { entries: Vec::new() }
}

fn plan_test_root(path: &str, raw: &str, keywords: &[&str]) -> IndexRoot {
    IndexRoot {
        raw: raw.to_string(),
        path: Some(path.to_string()),
        enabled: true,
        score: 0,
        max_depth: SEARCH_DEPTH_ALL,
        label: String::new(),
        keywords: keywords.iter().map(|value| value.to_string()).collect(),
    }
}

fn plan_of(roots: &[IndexRoot]) -> RootOwnershipPlan {
    let directories = vec![true; roots.len()];
    build_plan(roots, &directories, WORKING_DIRECTORY)
}

fn whole_folder(path: &str, root: IndexRoot, exclusions: Vec<String>) -> EligibleSearchRoot {
    EligibleSearchRoot {
        path: path.to_string(),
        source_root: root.copy(),
        effective_root: root,
        exclusions,
        effective_depth: 0,
    }
}

fn eligible(plan: &RootOwnershipPlan, spec: &SearchQuerySpec) -> Vec<EligibleSearchRoot> {
    let any = any_root_modifier_match(plan, &spec.modifiers);
    eligible_search_roots(plan, &spec.modifiers, any, WORKING_DIRECTORY)
}

fn begin(roots: Vec<EligibleSearchRoot>) -> (Vec<ScanFolder>, ScanTaskQueue) {
    let mut folders = Vec::new();
    let mut queue = ScanTaskQueue::new();
    for root in roots {
        let (folder, task) = first_task(root, folders.len(), WORKING_DIRECTORY);
        folders.push(folder);
        queue.enqueue_scan_task(task);
    }
    (folders, queue)
}

fn start_run(limit: usize, scope: SearchScope) -> SearchRun {
    SearchRun::start(
        7,
        SearchLimits::new(limit, DEFAULT_LIMIT),
        scope,
        true,
        true,
        Vec::new(),
    )
    .0
}

/// One worker looks through every folder; what is to be stored comes back.
fn scan_alone(
    run: &mut SearchRun,
    tree: &Tree,
    roots: Vec<EligibleSearchRoot>,
) -> Vec<RankedCandidate> {
    let (folders, mut queue) = begin(roots);
    let mut stored = Vec::new();
    while let ScanStep::Scan(task) = queue.take_scan_task(true) {
        let folder = &folders[task.folder];
        if may_scan(&folder.context.root, task.directory.depth) {
            let found = run.scan_entries(
                &tree.entries(&task.directory.path),
                folder,
                &task.directory,
                WORKING_DIRECTORY,
            );
            stored.extend(found.stored);
            for child in child_tasks(&task, &folder.context, &found.children) {
                queue.enqueue_scan_task(child);
            }
        }
        queue.finish_scan_task();
    }
    stored
}

/// One directory of a worker among several: the names in turn, offered to all.
fn work_through(
    scope: &SearchScope,
    progress: &mut SearchProgress,
    threshold: &mut u64,
    task: &ScanTask,
    folder: &ScanFolder,
    entries: Vec<FoundEntry>,
    limit: usize,
) -> Vec<String> {
    let mut local = LocalSearchProgress::new(64);
    let mut children = Vec::new();
    for entry in entries {
        if skips_entry(
            &entry.path,
            entry.is_dir,
            entry.is_reparse_point,
            &folder.exclusions,
            WORKING_DIRECTORY,
        ) {
            continue;
        }
        if entry.is_dir {
            children.push(entry.path.clone());
        }
        let found = local.look_at(
            scope,
            &entry.path,
            &Some(entry.file_name.clone()),
            entry.is_dir,
            &folder.context,
            &task.directory,
            *threshold,
            false,
            || entry.modified_at,
        );
        if let Some(found) = found {
            let offer = progress.offer_parallel_search_result(found, *threshold, limit, false);
            if let Some(next) = offer.threshold {
                *threshold = next;
            }
        }
        if local.is_flush_due(false) {
            local.flush(progress, true, 64, false, true);
        }
    }
    local.flush(progress, false, 64, false, true);
    children
}

/// Several workers take turns at the folders; every other one walks backwards.
fn scan_together(
    scope: &SearchScope,
    tree: &Tree,
    roots: Vec<EligibleSearchRoot>,
    workers: usize,
    limit: usize,
) -> SearchProgress {
    let (folders, mut queue) = begin(roots);
    let mut progress = SearchProgress::new();
    let mut threshold: u64 = 0;
    let mut turn = 0;
    while let ScanStep::Scan(task) = queue.take_scan_task(true) {
        let folder = &folders[task.folder];
        let mut entries = tree.entries(&task.directory.path);
        if turn % 2 == 0 {
            entries.reverse();
        }
        let children = if may_scan(&folder.context.root, task.directory.depth) {
            work_through(scope, &mut progress, &mut threshold, &task, folder, entries, limit)
        } else {
            Vec::new()
        };
        for child in child_tasks(&task, &folder.context, &children) {
            queue.enqueue_scan_task(child);
        }
        queue.finish_scan_task();
        turn = (turn + 1) % workers;
    }
    progress
}

// ---------------------------------------------------------------------------
// Refinement
// ---------------------------------------------------------------------------

fn request(raw: &str) -> SearchWorkerRequest {
    SearchWorkerRequest {
        generation: 1,
        window: 0,
        spec: query(raw),
        root_plan: 1,
        scoring: 1,
        recent_items: 1,
        query_launch_rules: 1,
        effective_limit: DEFAULT_LIMIT,
        search_threads: 2,
        include_score_detail: false,
        include_explanation: false,
    }
}

fn start_session(first: SearchWorkerRequest, cache_limit: usize) -> RefinementSession {
    let spec = first.spec.effective_for_scoring();
    let scope = SearchScope::new(spec, ScoringConfig::default(), no_history(), Wording::source());
    RefinementSession::start(first, scope, Vec::new(), cache_limit, DEFAULT_LIMIT)
}

fn feed(session: &mut RefinementSession, path: &str, entries: &[FoundEntry]) {
    let context = RootScanContext::new(plan_test_root(path, "refinement", &[]), WORKING_DIRECTORY);
    let directory = DirectoryScanContext::new(path, 0, &context);
    for entry in entries {
        let name = Some(entry.file_name.clone());
        match session.check_name(&entry.path, &name, entry.is_dir, &directory) {
            NameCheck::Matched { name, .. } => {
                let item = item_in_directory(
                    &entry.path,
                    entry.is_dir,
                    &context,
                    &directory,
                    name,
                    entry.modified_at,
                );
                let parts = [item.title.len(), item.subtitle.len(), item.path.len()];
                session.take_candidate(PreparedCandidate::new(item, 200, &parts));
            }
            NameCheck::Unmatched | NameCheck::Stopped => {}
        }
    }
}

fn refined(raw: &str) -> SearchWorkerRequest {
    let mut next = request(raw);
    next.generation = 2;
    next
}

#[test]
fn visual_refinement_requires_only_the_last_token_to_extend() {
    let base = query("google chr");
    assert!(query_specs_allow_refinement(&base, &query("google chro")));
    assert!(!query_specs_allow_refinement(
        &base,
        &query("google chrome browser")
    ));
    assert!(!query_specs_allow_refinement(&base, &query("bing chro")));
    assert!(!query_specs_allow_refinement(
        &base,
        &query("google chro +work")
    ));
}

#[test]
fn refinement_progress_requires_item_and_time_thresholds() {
    let step = 64;
    assert!(!refinement_progress_due(step, step, false));
    assert!(!refinement_progress_due(step - 1, step, true));
    assert!(refinement_progress_due(step, step, true));
}

#[test]
fn completed_refinement_reuses_cache_without_rescanning() {
    let path = r"C:\T\refinement-completed";
    let mut tree = Tree::new();
    for name in ["chrome.exe", "chromium.txt", "chr-only.txt", "other.txt"] {
        tree.file(path, name);
    }
    let mut session = start_session(request("chr"), CACHE_LIMIT);
    feed(&mut session, path, &tree.entries(path));
    assert!(session.finish_scan());
    let before = session.metrics();
    assert_eq!(before.cache_candidates, 3);

    assert!(session.update(refined("chro"), Vec::new(), DEFAULT_LIMIT));
    let after = session.metrics();

    assert_eq!(after.filesystem_entries, before.filesystem_entries);
    assert_eq!(after.reused_candidates, before.cache_candidates);
    assert_eq!(after.query_version, 2);
    assert!(after.scan_done);
}

#[test]
fn in_flight_refinement_rescores_stale_candidates_for_latest_query() {
    let path = r"C:\T\refinement-in-flight";
    let mut tree = Tree::new();
    for index in 0..80 {
        tree.file(path, &format!("chr-only-{index:03}.txt"));
    }
    tree.file(path, "chromium.txt");
    let entries = tree.entries(path);
    let mut session = start_session(request("chr"), CACHE_LIMIT);
    feed(&mut session, path, &entries[..40]);
    assert!(session.metrics().filesystem_entries > 0);
    assert!(!session.metrics().scan_done);

    assert!(session.update(refined("chrom"), Vec::new(), DEFAULT_LIMIT));
    feed(&mut session, path, &entries[40..]);
    session.finish_scan();

    assert_eq!(session.metrics().query_version, 2);
    let rows = session.rows();
    assert!(!rows.is_empty());
    assert!(rows
        .iter()
        .filter_map(result_target_path)
        .all(|path| fold_text(path.rsplit('\\').next().unwrap()).contains("chrom")));
}

#[test]
fn cache_cap_finishes_current_query_then_forces_full_scan_fallback() {
    let path = r"C:\T\refinement-cap";
    let mut tree = Tree::new();
    for index in 0..12 {
        tree.file(path, &format!("chrome-{index:03}.txt"));
    }
    let mut session = start_session(request("chr"), 1);
    feed(&mut session, path, &tree.entries(path));
    session.finish_scan();
    let metrics = session.metrics();
    assert!(metrics.scan_done);
    assert!(metrics.full_scan_fallback);
    assert_eq!(metrics.cache_candidates, 0);
    assert!(!session.best.is_empty());

    let mut next = request("chro");
    next.generation = 1;
    assert!(!session.can_refine(&next));
    assert!(!session.update(next, Vec::new(), DEFAULT_LIMIT));
}

#[test]
fn show_all_cache_overflow_runs_full_scan_fallback() {
    let path = r"C:\T\zoom-fallback";
    let mut tree = Tree::new();
    for index in 0..8 {
        tree.file(path, &format!("chrome-{index:03}.txt"));
    }
    let mut first = request("chr");
    first.window = 1;
    first.effective_limit = usize::MAX;
    let mut session = start_session(first, 1);
    feed(&mut session, path, &tree.entries(path));
    session.finish_scan();
    assert_eq!(session.publish_action(true), RefinementPublish::SearchAgain);

    let plan = plan_of(&[plan_test_root(path, "refinement-show-all-fallback", &[])]);
    let (batch, disk) = search_all(&tree, &plan, "chr");
    assert!(batch.done);
    assert_eq!(batch.scanned_total, 9);
    let Some(ResultStoreCompletion::Ready(manifest)) = batch.result_store else {
        panic!("no result store");
    };
    let mut reader = open(manifest, &disk);
    let chrome_results = (0..reader.len())
        .filter_map(|index| get(&mut reader, &disk, index))
        .filter(|result| result.title.starts_with("chrome-"))
        .count();
    assert_eq!(chrome_results, 8);
}

#[test]
fn refinement_compatibility_covers_all_invalidation_snapshots() {
    let base = request("one chr");
    let mut compatible = request("one chro");
    compatible.effective_limit = usize::MAX;
    compatible.include_score_detail = true;
    compatible.include_explanation = true;
    assert!(refinement_requests_compatible(&base, &compatible));

    let mut cases = Vec::new();
    cases.push(request("one xyz"));
    cases.push(request("one chr extra"));
    let mut changed = request("one chr");
    changed.spec.mode = SearchQueryMode::DirectoryBrowse;
    cases.push(changed);
    let mut changed = request("one chr");
    changed.spec.modifiers.push("root".to_string());
    cases.push(changed);
    let mut changed = request("one chr");
    changed.spec.scoring_modifiers.push("score".to_string());
    cases.push(changed);
    let mut changed = request("one chr");
    changed.root_plan = 2;
    cases.push(changed);
    let mut changed = request("one chr");
    changed.scoring = 2;
    cases.push(changed);
    let mut changed = request("one chr");
    changed.recent_items = 2;
    cases.push(changed);
    let mut changed = request("one chr");
    changed.query_launch_rules = 2;
    cases.push(changed);
    let mut changed = request("one chr");
    changed.search_threads = changed.search_threads.saturating_add(1);
    cases.push(changed);

    for changed in cases {
        assert!(!refinement_requests_compatible(&base, &changed));
    }
}

#[test]
fn show_all_and_score_detail_rebuild_from_completed_cache() {
    let path = r"C:\T\refinement-show-all";
    let mut tree = Tree::new();
    for index in 0..20 {
        tree.file(path, &format!("chrome-{index:03}.txt"));
    }
    let mut first = request("chr");
    first.effective_limit = 3;
    let mut session = start_session(first, CACHE_LIMIT);
    feed(&mut session, path, &tree.entries(path));
    session.finish_scan();
    assert_eq!(session.best.len(), 3);
    let scanned = session.metrics().filesystem_entries;

    let mut show_all = request("chr");
    show_all.window = 1;
    show_all.effective_limit = usize::MAX;
    show_all.include_score_detail = true;
    assert!(session.update(show_all, Vec::new(), DEFAULT_LIMIT));
    assert_eq!(session.publish_action(true), RefinementPublish::Store);
    let all_ranked = refinement_all_results(&session, Vec::new());
    let all_results = materialize_ranked_candidates(&session.scope, &all_ranked, true, false);
    assert_eq!(session.scanned_total, scanned);
    assert_eq!(all_results.len(), 20);
    assert!(all_results
        .iter()
        .all(|result| !result.score_detail.is_empty()));
}

#[test]
fn invalidate_and_shutdown_clear_refinement_session_state() {
    let path = r"C:\T\refinement-cleanup";
    let mut tree = Tree::new();
    tree.file(path, "chrome.txt");
    let mut session = start_session(request("chr"), CACHE_LIMIT);
    feed(&mut session, path, &tree.entries(path));
    session.finish_scan();
    assert_eq!(session.cache.len(), 1);
    let before = session.metrics();
    session.invalidate();
    let after = session.metrics();
    assert_eq!(after.query_version, before.query_version);
    assert_eq!(after.full_scan_fallback, before.full_scan_fallback);
    assert_eq!(after.reused_candidates, before.reused_candidates);
    assert!(session.shutdown);
    assert!(session.cache.is_empty());
    assert!(session.best.is_empty());
    assert!(session.scan_seen.insert(&recent_item_key(&join(path, "chrome.txt"))));
    assert!(session
        .ranking_seen
        .insert(&recent_item_key(&join(path, "chrome.txt"))));
    let name = Some("chrome.txt".to_string());
    let context = RootScanContext::new(plan_test_root(path, "r", &[]), WORKING_DIRECTORY);
    let directory = DirectoryScanContext::new(path, 0, &context);
    assert_eq!(
        session.check_name(&join(path, "chrome.txt"), &name, false, &directory),
        NameCheck::Stopped
    );
}

#[test]
fn lazy_ranked_materialization_preserves_detail_and_signature() {
    let scoring = ScoringConfig::default();
    let root = plan_test_root(r"C:\ROOT", "root", &[]);
    let path = r"C:\ROOT\Tools\chrome.exe";
    let item = launch_item_from_path_with_type(path, false, &root, None, WORKING_DIRECTORY).unwrap();
    let spec = scoring_query("chrome");
    let eager = score_breakdown_with_config(
        &item,
        &spec,
        0,
        &None,
        &scoring,
        false,
        &Wording::source(),
    ).unwrap();
    let scope = SearchScope::new(
        scoring_query("chrome"),
        ScoringConfig::default(),
        no_history(),
        Wording::source(),
    );
    let name = PreparedCandidateName {
        title: item.title.clone(),
        folded_title: item.folded_title.clone(),
        folded_stem: item.folded_stem.clone(),
    };
    let text_score = scope
        .prepared
        .score_candidate_name(&name, &item.folded_parent, false, &scoring)
        .unwrap();
    let key = recent_item_key(&item.path);
    let candidate = scope.make_candidate(item, &key, text_score);
    let lazy = materialize_ranked_candidate(
        &candidate,
        &spec,
        &None,
        &scoring,
        true,
        true,
        &Wording::source(),
    );
    assert_eq!(
        visible_results_signature(&[lazy.copy()], &[None], 1),
        visible_results_signature(&[eager.result.copy()], &[None], 1)
    );
    assert_eq!(lazy.explanation, eager.result.explanation);
}

#[test]
fn equal_upper_bound_is_not_pruned() {
    for score in [i32::MIN, -1, 0, 1, i32::MAX] {
        assert!(!should_branch_prune(score, heuristic_primary_rank(score)));
    }
}

#[test]
fn branch_pruning_matches_disabled_for_broad_tie_negative_recent_folder_and_pattern() {
    let path = r"C:\T\branch-equivalence";
    let mut tree = Tree::new();
    tree.file(path, "abc.exe");
    tree.file(path, "abc-tie-a.exe");
    tree.file(path, "abc-tie-b.exe");
    let recent = tree.file(path, "a---b---c.txt");
    tree.file(path, "alpha-beta-charlie.tmp");
    tree.directory(path, "abc-folder");
    let history = |noted: bool| HistoryTable {
        entries: if noted {
            vec![HistoryEntry {
                key: recent_item_key(&recent),
                score: 50,
                raw: Some("50".to_string()),
            }]
        } else {
            Vec::new()
        },
    };
    let plain = || ScoringConfig::default();
    let folders_count = || ScoringConfig {
        folder_score_as_file_score_percent: 200,
        ..Default::default()
    };
    let pattern = || ScoringConfig {
        pattern_rules: vec![PatternRule {
            pattern: "*.tmp".to_string(),
            folded_pattern: "*.tmp".to_string(),
            score: 700,
            modifiers: Vec::new(),
        }],
        ..Default::default()
    };
    let variants: Vec<(i32, [ScoringConfig; 2], bool)> = vec![
        (0, [plain(), plain()], false),
        (-500, [plain(), plain()], false),
        (0, [folders_count(), folders_count()], false),
        (0, [pattern(), pattern()], false),
        (0, [plain(), plain()], true),
    ];
    for (root_score, [first, second], noted) in variants {
        let folder = || {
            let mut root = plan_test_root(path, "branch", &[]);
            root.score = root_score;
            whole_folder(path, root, Vec::new())
        };
        // Nothing is pruned where everything is shown.
        let mut all = start_run(
            usize::MAX,
            SearchScope::new(scoring_query("abc"), first, history(noted), Wording::source()),
        );
        scan_alone(&mut all, &tree, vec![folder()]);
        let mut few = start_run(3, SearchScope::new(
            scoring_query("abc"),
            second,
            history(noted),
            Wording::source(),
        ));
        scan_alone(&mut few, &tree, vec![folder()]);
        assert_eq!(all.progress.scanned_total, few.progress.scanned_total);
        let every = materialize_ranked_candidates(&all.scope, &all.progress.best, true, true);
        let every = flash_launch::results::sort_search_results(every);
        let best = materialize_ranked_candidates(&few.scope, &few.progress.best, true, true);
        assert_eq!(best.len(), 3);
        let followed: Vec<Option<String>> = vec![None; every.len()];
        assert_eq!(
            visible_results_signature(&best, &followed[..3], 3),
            visible_results_signature(&every[..3], &followed[..3], 3)
        );
    }
}

#[test]
fn show_all_disables_branch_pruning() {
    let path = r"C:\T\branch-show-all";
    let mut tree = Tree::new();
    for index in 0..20 {
        tree.file(path, &format!("abc-{index:03}.txt"));
    }
    let plan = plan_of(&[plan_test_root(path, "branch-show-all", &[])]);
    let (batch, disk) = search_all(&tree, &plan, "abc");
    assert_eq!(batch.scanned_total, 21);
    let Some(ResultStoreCompletion::Ready(manifest)) = batch.result_store else {
        panic!("no result store");
    };
    assert_eq!(open(manifest, &disk).len(), 20);
}

#[test]
fn branch_pruned_candidate_remains_in_refinement_cache() {
    let path = r"C:\T\branch-retained";
    let mut tree = Tree::new();
    let candidate_path = tree.file(path, "a---b---c.txt");
    let mut first = request("abc");
    first.effective_limit = 1;
    let high = SearchResult {
        title: "Priority".to_string(),
        subtitle: String::new(),
        target: LaunchTarget::Path(join(path, "priority.exe")),
        is_dir: false,
        from_history: false,
        from_query_launch_rule: true,
        ranking_kind: ResultRankingKind::QueryLaunchRule,
        explanation: None,
        display_score: i32::MAX,
        score_detail: "priority".to_string(),
        score: i32::MAX,
    };
    let scope = SearchScope::new(
        scoring_query("abc"),
        ScoringConfig::default(),
        no_history(),
        Wording::source(),
    );
    let mut session = RefinementSession::start(first, scope, vec![high], CACHE_LIMIT, DEFAULT_LIMIT);
    feed(&mut session, path, &tree.entries(path));
    assert_eq!(session.cache.len(), 1);
    assert_eq!(session.cache[0].item.path, candidate_path);
    assert_eq!(session.best.len(), 1);
    let bound = heuristic_score_upper_bound(
        &session.cache[0].item,
        100,
        &session.scope.prepared,
        &session.scope.scoring,
    );
    assert!(should_branch_prune(bound, bounded_ranked_threshold(&session.best, 1)));
}

#[test]
fn one_live_root_uses_parallel_queue_with_multiple_workers() {
    assert_eq!(live_scan_strategy(1, 1), "sequential");
    assert_eq!(live_scan_strategy(1, 2), "parallel-task-queue");
    assert_eq!(live_scan_strategy(0, 20), "none");
}

#[test]
fn parallel_live_scan_counts_every_item() {
    let path = r"C:\T\parallel-source-counts";
    let mut tree = Tree::new();
    let child = tree.directory(path, "child");
    let nested = tree.directory(&child, "nested");
    tree.file(path, "root.txt");
    tree.file(&child, "child.txt");
    tree.file(&nested, "nested.txt");
    let root = plan_test_root(path, "parallel", &[]);
    let scope = SearchScope::new(
        query("txt"),
        ScoringConfig::default(),
        no_history(),
        Wording::source(),
    );
    let progress = scan_together(
        &scope,
        &tree,
        vec![whole_folder(path, root, Vec::new())],
        2,
        DEFAULT_LIMIT,
    );
    assert_eq!(progress.scanned_total, 5);
}

#[test]
fn parallel_live_scan_matches_single_worker_bounded_top_results() {
    let path = r"C:\T\parallel-bounded-top";
    let mut tree = Tree::new();
    for index in 0..40 {
        tree.file(path, &format!("needle-{index:02}.txt"));
    }
    let folder = || {
        whole_folder(
            path,
            plan_test_root(path, "parallel-bounded", &[]),
            Vec::new(),
        )
    };
    let scope = || SearchScope::new(
        query("needle"),
        ScoringConfig::default(),
        no_history(),
        Wording::source(),
    );
    let mut single = start_run(5, scope());
    scan_alone(&mut single, &tree, vec![folder()]);
    let shared = scope();
    let parallel = scan_together(&shared, &tree, vec![folder()], 4, 5);

    assert_eq!(single.progress.scanned_total, parallel.scanned_total);
    let single_results =
        materialize_ranked_candidates(&single.scope, &single.progress.best, true, true);
    let parallel_results = materialize_ranked_candidates(&shared, &parallel.best, true, true);
    assert_eq!(single_results.len(), 5);
    assert_eq!(parallel_results, single_results);
    assert_eq!(
        result_target_text(&single_results[0], &None),
        Some(join(path, "needle-00.txt"))
    );
}

#[test]
fn directory_scan_context_preserves_parent_text_and_relative_depth() {
    let path = r"C:\T\directory-context-depth";
    let nested = r"C:\T\directory-context-depth\one\two";
    let root = RootScanContext::new(plan_test_root(path, "context-root", &[]), WORKING_DIRECTORY);
    let directory = DirectoryScanContext::new(nested, 2, &root);
    assert_eq!(
        root.root_key,
        normalized_root_path_key(path, WORKING_DIRECTORY)
    );
    assert_eq!(directory.depth, 2);
    assert_eq!(directory.folded_parent, searchable_text(nested));
    assert_eq!(
        directory.subtitle,
        format!("{}\\one\\two\\", root.root_name)
    );

    let candidate_path = join(nested, "needle.txt");
    let candidate_name = PreparedCandidateName::from_path(&candidate_path).unwrap();
    let item = launch_item_from_prepared_candidate(
        &candidate_path,
        false,
        &root.root,
        None,
        candidate_name,
        directory.subtitle.clone(),
        directory.folded_parent.clone(),
        directory.depth,
    );
    assert_eq!(item.relative_depth, 2);
    assert_eq!(item.subtitle, directory.subtitle);
}

#[test]
fn prepared_candidate_creates_one_path_key_and_reuses_it_for_parallel_dedupe() {
    let path = r"C:\T\single-path-key";
    let candidate_path = join(path, "needle.exe");
    let root = RootScanContext::new(plan_test_root(path, "single-key", &[]), WORKING_DIRECTORY);
    let directory = DirectoryScanContext::new(path, 0, &root);
    let scope = SearchScope::new(
        scoring_query("needle"),
        ScoringConfig::default(),
        no_history(),
        Wording::source(),
    );
    let mut seen = KeySet::new();
    let mut scanned_total: usize = 0;
    let mut consider = |seen: &mut KeySet| {
        consider_prepared_search_path(
            &scope,
            &candidate_path,
            &Some("needle.exe".to_string()),
            false,
            &root,
            &directory,
            seen,
            &mut scanned_total,
            0,
            || None,
        )
    };
    let candidate = consider(&mut seen).unwrap();
    assert_eq!(candidate.path_key, fold_text(&candidate_path));
    assert!(consider(&mut seen).is_none());
    let again = consider(&mut KeySet::new()).unwrap();
    assert_eq!(scanned_total, 3);

    let mut progress = SearchProgress::new();
    progress.offer_parallel_search_result(candidate, 0, DEFAULT_LIMIT, false);
    let offer = progress.offer_parallel_search_result(again, 0, DEFAULT_LIMIT, true);
    assert_eq!(offer.threshold, None);
    assert_eq!(offer.stored, None);
    assert_eq!(progress.best.len(), 1);
}

#[test]
fn live_scan_skips_excluded_subtree_and_keeps_neighboring_files() {
    let path = r"C:\T\live-exclusion";
    let mut tree = Tree::new();
    let excluded_path = tree.directory(path, "excluded");
    tree.file(&excluded_path, "ignored.txt");
    let source_path = tree.file(path, "main.rs");
    let folder = whole_folder(
        path,
        plan_test_root(path, "cache-exclusion", &[]),
        vec![normalized_root_path_key(&excluded_path, WORKING_DIRECTORY)],
    );
    let scope = SearchScope::new(
        query("main"),
        ScoringConfig::default(),
        no_history(),
        Wording::source(),
    );
    let progress = scan_together(&scope, &tree, vec![folder], 2, DEFAULT_LIMIT);

    assert_eq!(progress.scanned_total, 1);
    assert_eq!(progress.best.len(), 1);
    let materialized = materialize_ranked_candidates(&scope, &progress.best, true, true);
    assert_eq!(result_target_path(&materialized[0]), Some(source_path));
}

fn parent_and_child(parent_path: &str, child_path: &str) -> RootOwnershipPlan {
    let mut parent = plan_test_root(parent_path, "parent", &["parent"]);
    parent.score = 25;
    parent.max_depth = 1;
    let mut child = plan_test_root(child_path, "child", &["child"]);
    child.score = 90;
    plan_of(&[parent, child])
}

#[test]
fn live_child_source_uses_parent_score_and_depth_for_parent_modifier() {
    let parent_path = r"C:\T\live-parent-fallback";
    let mut tree = Tree::new();
    let child_path = tree.directory(parent_path, "child");
    let nested_path = tree.directory(&child_path, "nested");
    let direct_file = tree.file(&child_path, "needle-direct.exe");
    let deep_file = tree.file(&nested_path, "needle-deep.exe");
    let plan = parent_and_child(parent_path, &child_path);
    let spec = scoring_query("needle +parent");
    let live_roots = eligible(&plan, &spec);
    let scope = SearchScope::new(spec, ScoringConfig::default(), no_history(), Wording::source());
    let progress = scan_together(&scope, &tree, live_roots, 2, DEFAULT_LIMIT);

    assert_eq!(progress.best.len(), 1);
    let materialized = materialize_ranked_candidates(&scope, &progress.best, true, true);
    assert_eq!(result_target_path(&materialized[0]), Some(direct_file));
    assert!(materialized[0].score_detail.contains("index 25"));
    assert!(!materialized
        .iter()
        .any(|result| result_target_path(result).as_deref() == Some(deep_file.as_str())));
}

#[test]
fn debug_child_source_uses_parent_score_and_depth_for_parent_modifier() {
    let parent_path = r"C:\T\debug-parent-fallback";
    let mut tree = Tree::new();
    let child_path = tree.directory(parent_path, "child");
    let nested_path = tree.directory(&child_path, "nested");
    let direct_file = tree.file(&child_path, "needle-direct.exe");
    tree.file(&nested_path, "needle-deep.exe");
    let plan = parent_and_child(parent_path, &child_path);
    let spec = scoring_query("needle +parent");
    let roots = eligible(&plan, &spec);
    let mut search = DebugSearch::start(
        spec,
        ScoringConfig::default(),
        no_history(),
        Wording::source(),
        Vec::new(),
    );
    for root in &roots {
        debug_collect(&mut search, &tree, &root.path, root.effective_depth, root);
    }
    let rows = search.finish(10);
    assert_eq!(rows.len(), 1);
    assert_eq!(
        result_target_path(&rows[0].breakdown.result),
        Some(direct_file)
    );
    assert_eq!(rows[0].breakdown.components.index_score, 25);
}

fn debug_collect(
    search: &mut DebugSearch,
    tree: &Tree,
    path: &str,
    depth: usize,
    folder: &EligibleSearchRoot,
) {
    let root = &folder.effective_root;
    if !may_visit(root, depth) {
        return;
    }
    search.consider(path, true, root, None, WORKING_DIRECTORY);
    if !may_scan(root, depth) {
        return;
    }
    for entry in tree.entries(path) {
        if path_is_in_excluded_subtree(&entry.path, &folder.exclusions, WORKING_DIRECTORY) {
            continue;
        }
        search.consider(&entry.path, entry.is_dir, root, None, WORKING_DIRECTORY);
        if entry.is_dir && may_descend(root, depth) {
            debug_collect(search, tree, &entry.path, depth + 1, folder);
        }
    }
}

#[test]
fn debug_rows_are_ordered_and_met_once() {
    let root = plan_test_root(r"C:\T", "t", &[]);
    let mut search = DebugSearch::start(
        scoring_query("tool"),
        ScoringConfig::default(),
        no_history(),
        Wording::source(),
        Vec::new(),
    );
    for name in ["my tool.txt", "tool.txt", "tool.txt", "other"] {
        search.consider(&join(r"C:\T", name), false, &root, None, WORKING_DIRECTORY);
    }
    let rows = search.finish(0);
    assert_eq!(rows.len(), 1);
    assert_eq!(rows[0].breakdown.result.title, "tool.txt");
}

#[test]
fn modifier_filter_reuses_child_source_with_parent_configuration() {
    let parent_path = r"C:\T\modifier-ownership";
    let child_path = join(parent_path, "child");
    let plan = plan_of(&[
        plan_test_root(parent_path, "parent", &["parent"]),
        plan_test_root(&child_path, "child", &["child"]),
    ]);
    let eligible = eligible(&plan, &query("needle +parent"));

    assert_eq!(eligible.len(), 2);
    let parent_source = eligible
        .iter()
        .find(|entry| entry.source_root.raw == "parent")
        .unwrap();
    let child_source = eligible
        .iter()
        .find(|entry| entry.source_root.raw == "child")
        .unwrap();
    assert_eq!(parent_source.effective_root.raw, "parent");
    assert_eq!(
        parent_source.exclusions,
        vec![normalized_root_path_key(&child_path, WORKING_DIRECTORY)]
    );
    assert_eq!(child_source.effective_root.raw, "parent");
    assert_eq!(child_source.effective_depth, 1);
    assert_eq!(
        plan.owner(&join(&child_path, "file.exe"), WORKING_DIRECTORY)
            .unwrap()
            .root
            .raw,
        "child"
    );
}

fn recent_scope(plan: RootOwnershipPlan, paths: &[String], raw: &str) -> MatchScope {
    MatchScope {
        spec: scoring_query(raw),
        plan,
        history: HistoryTable {
            entries: paths
                .iter()
                .map(|path| HistoryEntry {
                    key: recent_item_key(path),
                    score: 110,
                    raw: Some("110".to_string()),
                })
                .collect(),
        },
        scoring: ScoringConfig::default(),
        default_depth: SEARCH_DEPTH_ALL,
        working_directory: WORKING_DIRECTORY.to_string(),
        wording: Wording::source(),
        include_score_detail: true,
        include_explanation: true,
    }
}

fn recent_files(paths: &[String]) -> Vec<RecentPath> {
    paths
        .iter()
        .map(|path| RecentPath {
            key: recent_item_key(path),
            path: path.clone(),
            state: Some(PathState {
                is_dir: false,
                modified_at: None,
            }),
        })
        .collect()
}

#[test]
fn recent_child_item_uses_parent_score_and_depth_for_parent_modifier() {
    let parent_path = r"C:\T\recent-parent-fallback";
    let child_path = join(parent_path, "child");
    let direct_file = join(&child_path, "needle-direct.exe");
    let deep_file = join(&join(&child_path, "nested"), "needle-deep.exe");
    let files = [direct_file.clone(), deep_file];
    let collect = |raw: &str| {
        collect_recent_path_match_breakdowns_with_detail(
            &recent_scope(parent_and_child(parent_path, &child_path), &files, raw),
            &recent_files(&files),
            10,
        )
    };

    let parent_results = collect("needle +parent");
    assert_eq!(parent_results.len(), 1);
    assert_eq!(
        result_target_path(&parent_results[0].result),
        Some(direct_file.clone())
    );
    assert_eq!(parent_results[0].components.index_score, 25);

    let child_results = collect("needle +child");
    assert_eq!(child_results.len(), 2);
    assert!(child_results
        .iter()
        .all(|result| result.components.index_score == 90));
}

#[test]
fn recent_batch_reuses_one_prebuilt_plan_for_132_items() {
    let root_path = r"C:\T\recent-batch";
    let plan = plan_of(&[plan_test_root(root_path, "recent-root", &[])]);
    let files: Vec<String> = (0..132)
        .map(|index| join(root_path, &format!("recent-{index:03}.exe")))
        .collect();
    let results = collect_recent_path_match_breakdowns_with_detail(
        &recent_scope(plan, &files, "recent"),
        &recent_files(&files),
        200,
    );

    assert_eq!(results.len(), 132);
    assert!(results
        .iter()
        .all(|result| result.components.index_score == 0));
}

// ---------------------------------------------------------------------------
// Stores in memory
// ---------------------------------------------------------------------------

type Disk = HashMap<String, Vec<u8>>;

fn write_run_file(disk: &mut Disk, run: RunOutput) -> String {
    disk.insert(run.path.clone(), run.bytes);
    run.path
}

fn build_store(stored: Vec<RankedCandidate>, disk: &mut Disk) -> ResultStoreManifest {
    let mut builder = ResultStoreBuilder::new_in_directory(7, "all", 1);
    for candidate in stored {
        match builder.push_ranked(candidate).unwrap() {
            PushStep::Stored => {}
            PushStep::Flush(run, record) => {
                let path = write_run_file(disk, run);
                builder.resume(path, record);
            }
        }
    }
    if let Some(run) = builder.flush_chunk() {
        let path = write_run_file(disk, run);
        builder.run_written(path);
    }
    let mut runs: Vec<std::vec::IntoIter<StoredResultRecord>> = builder
        .runs
        .iter()
        .map(|path| {
            let bytes = &disk[path];
            let count = read_header(bytes, false).unwrap() as usize;
            read_records(bytes, HEADER_BYTES as usize, 0, count)
                .unwrap()
                .into_iter()
        })
        .collect();
    let heads = runs.iter_mut().map(|run| run.next()).collect::<Vec<_>>();
    let mut merger = RunMerger { heads };
    let mut progress = StoreProgress::start(true);
    let mut body = Vec::new();
    while let Some((run, record)) = merger.take_next() {
        body.extend(progress.append(&record));
        merger.refill(run, runs[run].next());
    }
    let mut bytes = Vec::new();
    append_header(&mut bytes, true, progress.count);
    bytes.extend(body);
    disk.insert(builder.final_path(), bytes);
    builder.manifest(progress.count as usize, progress.sparse_offsets)
}

fn open(manifest: ResultStoreManifest, disk: &Disk) -> ResultStoreReader {
    let header = disk[manifest.path()][..HEADER_BYTES as usize].to_vec();
    open_store(manifest, &header).unwrap()
}

fn get(reader: &mut ResultStoreReader, disk: &Disk, index: usize) -> Option<SearchResult> {
    if let Some(found) = reader.cached_result(index) {
        return Some(found);
    }
    let plan = reader.plan_for(index)?;
    let file = &disk[&reader.path];
    let end = plan.end.map_or(file.len(), |end| end as usize);
    let page = read_page(plan, &file[plan.offset as usize..end]).unwrap();
    reader.keep_page(page);
    reader.cached_result(index)
}

/// A search that shows everything, with its folders and all that is in them.
fn search_all(tree: &Tree, plan: &RootOwnershipPlan, raw: &str) -> (SearchBatch, Disk) {
    let spec = scoring_query(raw);
    assert_eq!(search_way(&spec), SearchWay::Folders);
    let roots = eligible(plan, &spec);
    let mut run = start_run(
        usize::MAX,
        SearchScope::new(spec, ScoringConfig::default(), no_history(), Wording::source()),
    );
    let mut stored = Vec::new();
    for root in &roots {
        let context = RootScanContext::new(root.effective_root.copy(), WORKING_DIRECTORY);
        stored.extend(run.visit_root(&root.path, true, &context, WORKING_DIRECTORY, || None));
    }
    stored.extend(scan_alone(&mut run, tree, roots));
    let mut disk = Disk::new();
    let manifest = build_store(stored, &mut disk);
    (run.finish(Some(ResultStoreCompletion::Ready(manifest))), disk)
}

#[test]
fn show_all_streams_to_store_and_keeps_preview_bounded() {
    let path = r"C:\T\show-all-store";
    let mut tree = Tree::new();
    for index in 0..(DEFAULT_LIMIT + 40) {
        tree.file(path, &format!("needle-{index:03}.txt"));
    }
    let plan = plan_of(&[plan_test_root(path, "show-all", &[])]);
    let (batch, disk) = search_all(&tree, &plan, "needle");
    assert!(batch.done);
    assert_eq!(batch.stage, SearchStage::Done);
    assert!(batch.results.len() <= DEFAULT_LIMIT);
    let Some(ResultStoreCompletion::Ready(manifest)) = batch.result_store else {
        panic!("no result store");
    };
    let mut reader = open(manifest, &disk);
    assert_eq!(reader.len(), DEFAULT_LIMIT + 40);
    for index in [0, reader.len() / 2, reader.len() - 1] {
        assert!(get(&mut reader, &disk, index).is_some());
    }
}

// ---------------------------------------------------------------------------
// More of the scan
// ---------------------------------------------------------------------------

#[test]
fn links_are_passed_over_and_depth_is_kept() {
    assert!(skips_entry(r"C:\A\link", true, true, &[], WORKING_DIRECTORY));
    assert!(!skips_entry(r"C:\A\file", false, true, &[], WORKING_DIRECTORY));
    let mut root = plan_test_root(r"C:\A", "a", &[]);
    root.max_depth = 1;
    assert!(may_scan(&root, 1));
    assert!(!may_scan(&root, 2));

    let path = r"C:\T\deep";
    let mut tree = Tree::new();
    let one = tree.directory(path, "one");
    let two = tree.directory(&one, "two");
    tree.file(&two, "needle.txt");
    let mut folder = plan_test_root(path, "deep", &[]);
    folder.max_depth = 1;
    let mut run = start_run(
        5,
        SearchScope::new(
            scoring_query("needle"),
            ScoringConfig::default(),
            no_history(),
            Wording::source(),
        ),
    );
    scan_alone(&mut run, &tree, vec![whole_folder(path, folder, Vec::new())]);
    assert_eq!(run.progress.scanned_total, 2);
    assert!(run.progress.best.is_empty());
}

#[test]
fn a_directory_is_browsed_one_level() {
    let base = r"C:\Tools";
    let raw = r"C:\Tools\ned";
    let spec = parse_search_query(raw, 0, &environment(), false, true);
    assert_eq!(spec.mode, SearchQueryMode::DirectoryBrowse);
    assert_eq!(search_way(&spec), SearchWay::Directory);
    let directory = spec.directory.unwrap();
    assert_eq!(directory.base, base);
    assert_eq!(directory.filter, "ned");
    let reading = FilterReading {
        now: 0,
        environment: environment(),
        is_dir: false,
        parent_is_dir: false,
    };
    let mut search = DirectorySearch::start(
        3,
        SearchLimits::new(2, DEFAULT_LIMIT),
        &directory,
        &reading,
        ScoringConfig::default(),
        Wording::source(),
        true,
        false,
        WORKING_DIRECTORY,
    );
    for name in ["needle.exe", "other.exe", "nedfolder"] {
        let path = join(base, name);
        search.visit(&path, false, name == "nedfolder", WORKING_DIRECTORY, || None);
    }
    search.visit(&join(base, "ned-link"), true, true, WORKING_DIRECTORY, || None);
    let batch = search.finish(None);
    assert!(batch.done);
    assert_eq!(batch.generation, 3);
    assert_eq!(batch.scanned_total, 3);
    let titles: Vec<&str> = batch.results.iter().map(|row| row.title.as_str()).collect();
    assert_eq!(titles.len(), 2);
    assert!(titles.contains(&r"C:\Tools\needle.exe"));
    assert!(titles.contains(&r"C:\Tools\nedfolder"));
}

#[test]
fn workers_wait_for_each_other() {
    let mut queue = ScanTaskQueue::new();
    assert_eq!(queue.take_scan_task(true), ScanStep::Stop);
    let folder = whole_folder(r"C:\A", plan_test_root(r"C:\A", "a", &[]), Vec::new());
    let (_, task) = first_task(folder, 0, WORKING_DIRECTORY);
    queue.enqueue_scan_task(task);
    assert!(matches!(queue.take_scan_task(true), ScanStep::Scan(_)));
    assert_eq!(queue.take_scan_task(true), ScanStep::Wait);
    assert_eq!(queue.take_scan_task(false), ScanStep::Stop);
    queue.finish_scan_task();
    assert_eq!(queue.take_scan_task(true), ScanStep::Stop);
}

#[test]
fn batches_come_when_they_are_due() {
    let mut run = start_run(
        5,
        SearchScope::new(
            scoring_query("needle"),
            ScoringConfig::default(),
            no_history(),
            Wording::source(),
        ),
    );
    run.progress.scanned_total = 63;
    assert!(run
        .due_batch(SearchStage::Folders, 64, false, true, DEFAULT_LIMIT)
        .is_none());
    run.progress.scanned_total = 64;
    let batch = run
        .due_batch(SearchStage::Folders, 64, false, true, DEFAULT_LIMIT)
        .unwrap();
    assert_eq!(batch.stage, SearchStage::Folders);
    assert!(!batch.done);
    assert_eq!(batch.scanned_total, 64);
    assert!(run
        .due_batch(SearchStage::Folders, 64, true, false, DEFAULT_LIMIT)
        .is_none());
    assert!(is_active_search_generation(4, 4));
    assert!(!is_active_search_generation(4, 5));
}

#[test]
fn a_refined_session_goes_by_the_whole_of_the_new_query() {
    let mut session = start_session(request("chr"), CACHE_LIMIT);
    let mut next = request("chro");
    next.spec.scoring_time_unix_seconds += 77;
    let expected = next.spec.effective_for_scoring();
    assert!(session.update(next, Vec::new(), DEFAULT_LIMIT));
    assert_eq!(session.scope.spec, expected);
    assert_eq!(session.query_version, 2);
}

#[test]
fn entries_are_split_for_workers() {
    let path = r"C:\T\split";
    let root = plan_test_root(path, "split", &[]);
    let excluded = normalized_root_path_key(&join(path, "Owned"), WORKING_DIRECTORY);
    let (folders, _) = begin(vec![whole_folder(path, root, vec![excluded])]);
    let entry = |name: &str, is_dir: bool, is_reparse_point: bool| FoundEntry {
        path: join(path, name),
        file_name: name.to_string(),
        is_dir,
        is_reparse_point,
        modified_at: None,
    };
    let entries = [
        entry("a.txt", false, false),
        entry("Link", true, true),
        entry("Inner", true, false),
        entry("Owned", true, false),
        entry("b.txt", false, true),
    ];
    let (kept, directories) = split_entries(&entries, &folders[0], WORKING_DIRECTORY);
    assert_eq!(kept, vec![0, 2, 4]);
    assert_eq!(directories, vec![join(path, "Inner")]);
}
