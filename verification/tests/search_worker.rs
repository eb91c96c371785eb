use flash_launch::aliases::Environment;
use flash_launch::query::parse_search_query;
use flash_launch::results::{LaunchTarget, SearchResult};
use flash_launch::search_worker::{
    coalesce_pending_search_batch, request_action, MailboxStep, PendingLaunchDecision,
    PendingLaunchRequest, RequestAction, SearchBatch, SearchLimits, SearchMailbox, SearchStage,
    SearchThreadMode, SearchWorkerCommand, SearchWorkerRequest, ThreadBounds,
};
use flash_launch::types::ResultRankingKind;

fn request(generation: u64, raw: &str) -> SearchWorkerRequest {
    let environment = Environment {
        variables: Vec::new(),
        app_dir: String::new(),
    };
    SearchWorkerRequest {
        generation,
        window: 0,
        spec: parse_search_query(raw, 0, &environment, false, false),
        root_plan: 1,
        scoring: 1,
        recent_items: 1,
        query_launch_rules: 1,
        effective_limit: 20,
        search_threads: 2,
        include_score_detail: false,
        include_explanation: false,
    }
}

fn search_of(step: MailboxStep) -> SearchWorkerRequest {
    match step {
        MailboxStep::Command(SearchWorkerCommand::Search(request)) => request,
        other => panic!("no search: {other:?}"),
    }
}

#[test]
fn mailbox_keeps_only_newest_search_request() {
    let mut mailbox = SearchMailbox::new();
    mailbox.submit(request(1, "first"));
    mailbox.submit(request(2, "second"));
    mailbox.submit(request(3, "third"));
    let selected = search_of(mailbox.take());
    assert_eq!(selected.generation, 3);
    assert_eq!(selected.spec.raw, "third");
    assert_eq!(mailbox.take(), MailboxStep::Wait);
}

#[test]
fn mailbox_invalidation_discards_pending_search() {
    let mut mailbox = SearchMailbox::new();
    mailbox.submit(request(1, "first"));
    mailbox.invalidate_session();
    assert_eq!(
        mailbox.take(),
        MailboxStep::Command(SearchWorkerCommand::InvalidateSession)
    );
    assert_eq!(mailbox.take(), MailboxStep::Wait);
}

#[test]
fn mailbox_preserves_invalidation_before_later_search() {
    let mut mailbox = SearchMailbox::new();
    mailbox.invalidate_session();
    mailbox.submit(request(2, "second"));
    assert_eq!(
        mailbox.take(),
        MailboxStep::Command(SearchWorkerCommand::InvalidateSession)
    );
    assert_eq!(search_of(mailbox.take()).generation, 2);
}

#[test]
fn mailbox_shutdown_discards_pending_search() {
    let mut mailbox = SearchMailbox::new();
    mailbox.submit(request(1, "first"));
    mailbox.shutdown();
    assert_eq!(mailbox.take(), MailboxStep::Stop);
    mailbox.submit(request(2, "second"));
    assert_eq!(mailbox.take(), MailboxStep::Stop);
}

#[test]
fn requests_are_dropped_refined_or_searched() {
    assert_eq!(
        request_action(&request(1, "tool"), 2, true),
        RequestAction::Drop
    );
    assert_eq!(
        request_action(&request(2, "tool"), 2, true),
        RequestAction::Refine
    );
    assert_eq!(
        request_action(&request(2, "tool"), 2, false),
        RequestAction::StartSession
    );
    assert_eq!(
        request_action(&request(2, ""), 2, false),
        RequestAction::Search
    );
}

#[test]
fn pending_launch_waits_for_matching_results() {
    let request = PendingLaunchRequest::new(7, "query".to_string());

    assert_eq!(
        request.decide(7, "query", false, false),
        PendingLaunchDecision::Wait
    );
    assert_eq!(
        request.decide(7, "query", true, false),
        PendingLaunchDecision::Launch
    );
}

#[test]
fn pending_launch_clears_after_empty_completion() {
    let request = PendingLaunchRequest::new(7, "query".to_string());

    assert_eq!(
        request.decide(7, "query", false, true),
        PendingLaunchDecision::Clear
    );
}

#[test]
fn pending_launch_rejects_stale_generation_or_query() {
    let request = PendingLaunchRequest::new(7, "query".to_string());

    assert_eq!(
        request.decide(8, "query", true, false),
        PendingLaunchDecision::Clear
    );
    assert_eq!(
        request.decide(7, "other", true, false),
        PendingLaunchDecision::Clear
    );
}

fn batch(generation: u64, title: &str, done: bool) -> SearchBatch {
    SearchBatch {
        generation,
        results: vec![SearchResult {
            title: title.to_string(),
            subtitle: String::new(),
            target: LaunchTarget::Path(format!(r"C:\Tools\{title}.exe")),
            is_dir: false,
            from_history: false,
            from_query_launch_rule: false,
            ranking_kind: ResultRankingKind::Heuristic,
            explanation: None,
            display_score: 0,
            score_detail: String::new(),
            score: 0,
        }],
        scanned_total: 1,
        stage: if done {
            SearchStage::Done
        } else {
            SearchStage::Folders
        },
        done,
        effective_limit: 20,
        result_store: None,
    }
}

#[test]
fn pending_search_batch_keeps_latest_for_generation() {
    let mut pending = vec![batch(7, "old", false)];

    assert!(!coalesce_pending_search_batch(
        &mut pending,
        batch(7, "latest", true),
    ));

    assert_eq!(pending.len(), 1);
    assert_eq!(pending[0].generation, 7);
    assert_eq!(pending[0].results[0].title, "latest");
    assert!(pending[0].done);
    assert_eq!(pending[0].stage, SearchStage::Done);
}

#[test]
fn pending_search_batch_drops_stale_generations() {
    let mut pending = vec![batch(4, "stale-a", false), batch(4, "stale-b", true)];

    assert!(coalesce_pending_search_batch(
        &mut pending,
        batch(5, "new", false),
    ));

    assert_eq!(pending.len(), 1);
    assert_eq!(pending[0].generation, 5);
    assert_eq!(pending[0].results[0].title, "new");
    assert!(!pending[0].done);
}

#[test]
fn limits_show_all_or_a_number() {
    let few = SearchLimits::new(5, 20);
    assert!(!few.show_all);
    assert_eq!(few.preview_limit, 5);
    let all = SearchLimits::new(usize::MAX, 20);
    assert!(all.show_all);
    assert_eq!(all.preview_limit, 20);
}

#[test]
fn thread_modes_stay_in_their_bounds() {
    let bounds = ThreadBounds::new(Some(16), 4, 1, 8);
    assert_eq!(SearchThreadMode::Auto.resolve(&bounds), 8);
    assert_eq!(SearchThreadMode::Maximum.resolve(&bounds), 16);
    assert_eq!(SearchThreadMode::Manual(99).resolve(&bounds), 16);
    assert_eq!(SearchThreadMode::Manual(0).resolve(&bounds), 1);
    assert_eq!(SearchThreadMode::Manual(3).setting_value(&bounds), "3");
    assert_eq!(ThreadBounds::new(None, 4, 1, 8).available, 4);
}
