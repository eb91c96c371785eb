use std::collections::HashMap;

use flash_launch::explanation::special_score_explanation;
use flash_launch::presentation::visible_results_signature;
use flash_launch::result_store::{
    append_header, merge_sorted_runs, read_header, read_records, write_run, RunMerger,
    StoreProgress, HEADER_BYTES, RESULT_STORE_CHANNEL_CAPACITY, RESULT_STORE_CHUNK_BYTES,
    RESULT_STORE_MERGE_FAN_IN, RESULT_STORE_PAGE_CACHE_LIMIT,
};
use flash_launch::results::{
    result_target_path, sort_search_results, LaunchTarget, RankedCandidate, RankedCandidatePayload,
    SearchResult,
};
use flash_launch::store_builder::{
    is_result_store_file, result_store_directory, PushStep, ResultStoreBuilder,
    ResultStoreManifest, RunOutput,
};
use flash_launch::store_codec::{
    decode_record_body, encoded_string_len, ranking_kind_from_byte, ranking_kind_to_byte,
    read_record, write_record, StoreError, StoredResultPayload, StoredResultRecord,
};
use flash_launch::store_reader::{open_store, read_page, ResultStoreReader};
use flash_launch::text::fold_text;
use flash_launch::types::{HeuristicScoreComponents, LaunchItem, ResultRankingKind};
use flash_launch::wording::Wording;

/// Files in memory.
type Disk = HashMap<String, Vec<u8>>;

fn result(index: usize, title: &str) -> SearchResult {
    SearchResult {
        title: title.to_string(),
        subtitle: format!(r"C:\Thư mục\Nhánh {index}"),
        target: LaunchTarget::Path(format!(r"C:\Dữ liệu\Ứng dụng {index}\{title}.exe")),
        is_dir: false,
        from_history: index % 5 == 0,
        from_query_launch_rule: false,
        ranking_kind: ResultRankingKind::Heuristic,
        explanation: Some(special_score_explanation(
            ResultRankingKind::Heuristic,
            "t",
            title,
            index as i32,
            &Wording::source(),
        )),
        display_score: index as i32,
        score_detail: format!("text {index} + path 0 = {index}"),
        score: index as i32,
    }
}

fn ranked_heuristic(index: usize, title: &str) -> RankedCandidate {
    let components = HeuristicScoreComponents {
        text_score: 100 + index as i32,
        path_score: 5,
        index_score: 7,
        pattern_score: 11,
        history_score: 13,
        recency_score: 17,
        folder_score: 0,
        path_penalty: 3,
        final_score: 150 + index as i32,
    };
    RankedCandidate {
        payload: RankedCandidatePayload::Heuristic {
            item: LaunchItem {
                title: title.to_string(),
                subtitle: format!(r"C:\Numeric\{index}"),
                path: format!(r"C:\Numeric\{title}.exe"),
                is_dir: false,
                folded_title: fold_text(title),
                folded_stem: fold_text(title),
                folded_parent: fold_text(r"C:\Numeric"),
                index_score: components.index_score,
                modified_at_unix_seconds: None,
                search_root: Some(r"C:\Numeric".to_string()),
                relative_depth: 1,
            },
            components,
            from_history: false,
        },
        ranking_kind: ResultRankingKind::Heuristic,
        display_score: components.final_score,
        score: components.final_score,
    }
}

fn write(disk: &mut Disk, run: RunOutput) -> String {
    disk.insert(run.path.clone(), run.bytes);
    run.path
}

fn step(builder: &mut ResultStoreBuilder, disk: &mut Disk, step: PushStep) {
    match step {
        PushStep::Stored => {}
        PushStep::Flush(run, record) => {
            let path = write(disk, run);
            builder.resume(path, record);
        }
    }
}

fn push(builder: &mut ResultStoreBuilder, disk: &mut Disk, item: SearchResult) {
    let next = builder.push(item).unwrap();
    step(builder, disk, next);
}

fn push_ranked(builder: &mut ResultStoreBuilder, disk: &mut Disk, candidate: RankedCandidate) {
    let next = builder.push_ranked(candidate).unwrap();
    step(builder, disk, next);
}

fn read_run(disk: &mut Disk, path: &str) -> Vec<StoredResultRecord> {
    let bytes = disk.remove(path).unwrap();
    let count = read_header(&bytes, false).unwrap() as usize;
    read_records(&bytes, HEADER_BYTES as usize, 0, count).unwrap()
}

fn merge(disk: &mut Disk, inputs: &[String]) -> Vec<StoredResultRecord> {
    let mut runs: Vec<std::vec::IntoIter<StoredResultRecord>> = inputs
        .iter()
        .map(|path| read_run(disk, path).into_iter())
        .collect();
    let heads = runs.iter_mut().map(|run| run.next()).collect::<Vec<_>>();
    let mut merger = RunMerger { heads };
    let mut merged = Vec::new();
    while let Some((run, record)) = merger.take_next() {
        merged.push(record);
        merger.refill(run, runs[run].next());
    }
    merged
}

fn finish(mut builder: ResultStoreBuilder, disk: &mut Disk) -> ResultStoreManifest {
    if let Some(run) = builder.flush_chunk() {
        let path = write(disk, run);
        builder.run_written(path);
    }
    while let Some(groups) = builder.start_merge_pass() {
        let mut outputs = Vec::new();
        for group in groups {
            let records = merge(disk, &group.inputs);
            disk.insert(group.output.clone(), write_run(&records));
            outputs.push(group.output);
        }
        builder.finish_merge_pass(outputs);
    }
    let records = merge(disk, &builder.runs.clone());
    let mut progress = StoreProgress::start(true);
    let mut body = Vec::new();
    for record in &records {
        body.extend(progress.append(record));
    }
    let mut bytes = Vec::new();
    append_header(&mut bytes, true, progress.count);
    bytes.extend(body);
    let path = builder.final_path();
    disk.insert(path, bytes);
    builder.manifest(progress.count as usize, progress.sparse_offsets)
}

fn open(manifest: ResultStoreManifest, disk: &Disk) -> ResultStoreReader {
    let header = disk[manifest.path()][..HEADER_BYTES as usize].to_vec();
    open_store(manifest, &header).unwrap()
}

fn get(reader: &mut ResultStoreReader, disk: &Disk, index: usize) -> Option<SearchResult> {
    if let Some(found) = reader.cached_result(index) {
        return Some(found);
    }
    let plan = reader.plan_for(index)?;
    let file = &disk[&reader.path];
    let end = plan.end.map_or(file.len(), |end| end as usize);
    let page = read_page(plan, &file[plan.offset as usize..end]).unwrap();
    reader.keep_page(page);
    reader.cached_result(index)
}

#[test]
fn codec_round_trips_unicode_windows_paths_without_explanation() {
    let original = result(7, "Ứng dụng_日本語");
    let stored = StoredResultRecord::from_search_result(original, 9).unwrap();
    let mut bytes = Vec::new();
    write_record(&mut bytes, &stored);
    let mut at = 0;
    let decoded = read_record(&bytes, &mut at).unwrap().into_search_result();
    assert_eq!(at, bytes.len());
    assert_eq!(decoded.title, "Ứng dụng_日本語");
    assert_eq!(decoded.score, 7);
    assert!(decoded.explanation.is_none());
    assert_eq!(
        result_target_path(&decoded).unwrap(),
        r"C:\Dữ liệu\Ứng dụng 7\Ứng dụng_日本語.exe"
    );
}

#[test]
fn numeric_heuristic_codec_builds_detail_when_page_is_read() {
    let stored =
        StoredResultRecord::from_ranked_candidate(ranked_heuristic(2, "Numeric_日本語"), 9)
            .unwrap();
    assert!(matches!(stored.payload, StoredResultPayload::Heuristic(_)));
    let mut bytes = Vec::new();
    write_record(&mut bytes, &stored);
    let mut at = 0;
    let decoded = read_record(&bytes, &mut at).unwrap().into_search_result();
    assert_eq!(decoded.score, 152);
    assert_eq!(
        decoded.score_detail,
        "text 102 + path 5 + index 7 + pattern 11 + history 13 + recency 17 + folder 0 - path_penalty 3 = 152"
    );
}

#[test]
fn special_record_preserves_prebuilt_detail() {
    let mut special = result(4, "Special");
    special.ranking_kind = ResultRankingKind::QueryLaunchRule;
    special.from_query_launch_rule = true;
    special.score_detail = "special prebuilt detail".to_string();
    let stored = StoredResultRecord::from_search_result(special, 1).unwrap();
    assert!(matches!(stored.payload, StoredResultPayload::Prebuilt(_)));
    let decoded = stored.into_search_result();
    assert_eq!(decoded.score_detail, "special prebuilt detail");
}

#[test]
fn reader_rejects_previous_store_magic() {
    let mut bytes = b"FLSTR001".to_vec();
    bytes.extend(0u64.to_le_bytes());
    let manifest = ResultStoreManifest {
        generation: 1,
        count: 0,
        path: Some("old.bin".to_string()),
        sparse_offsets: Vec::new(),
    };
    assert!(open_store(manifest, &bytes).is_err());
}

#[test]
fn numeric_records_round_trip_through_page_and_cache() {
    let mut disk = Disk::new();
    let mut builder = ResultStoreBuilder::new_in_directory(12, "numeric-page", 1);
    for index in 0..300 {
        push_ranked(
            &mut builder,
            &mut disk,
            ranked_heuristic(index, &format!("Numeric {index:03}")),
        );
    }
    let manifest = finish(builder, &mut disk);
    let mut reader = open(manifest, &disk);
    for index in [0, 127, 128, 255, 299] {
        let result = get(&mut reader, &disk, index).unwrap();
        assert!(!result.score_detail.is_empty());
    }
    get(&mut reader, &disk, 0);
    get(&mut reader, &disk, 128);
    get(&mut reader, &disk, 256);
    assert!(reader.cached_page_starts().len() <= RESULT_STORE_PAGE_CACHE_LIMIT);
}

#[test]
fn sparse_seek_crosses_page_and_sparse_boundaries() {
    let mut disk = Disk::new();
    let mut builder = ResultStoreBuilder::new_in_directory(1, "sparse", 1);
    for index in 0..700 {
        push(&mut builder, &mut disk, result(index, &format!("Item {index:04}")));
    }
    let manifest = finish(builder, &mut disk);
    let mut reader = open(manifest, &disk);
    for index in [0, 127, 128, 255, 256, 383, 512, 699] {
        assert_eq!(
            get(&mut reader, &disk, index).unwrap().score,
            699 - index as i32
        );
    }
    assert!(get(&mut reader, &disk, 700).is_none());
}

#[test]
fn page_cache_evicts_least_recently_used_page() {
    let mut disk = Disk::new();
    let mut builder = ResultStoreBuilder::new_in_directory(2, "cache", 1);
    for index in 0..600 {
        push(&mut builder, &mut disk, result(index, &format!("Item {index:04}")));
    }
    let manifest = finish(builder, &mut disk);
    let mut reader = open(manifest, &disk);
    get(&mut reader, &disk, 0);
    get(&mut reader, &disk, 128);
    get(&mut reader, &disk, 256);
    get(&mut reader, &disk, 0);
    get(&mut reader, &disk, 384);
    assert_eq!(reader.cached_page_starts(), vec![384, 0, 256]);
}

#[test]
fn external_sort_matches_in_memory_comparator_with_ties_and_query_rule() {
    let make = || {
        let mut input = (0..3000)
            .map(|index| {
                let mut item = result(index % 71, &format!("Title {:03}", index % 113));
                item.subtitle = format!("Root {:02}", index % 17);
                item
            })
            .collect::<Vec<_>>();
        input[177].ranking_kind = ResultRankingKind::QueryLaunchRule;
        input[177].from_query_launch_rule = true;
        input[177].score = -999;
        input
    };
    let expected = sort_search_results(make());

    let mut disk = Disk::new();
    let mut builder = ResultStoreBuilder::new_in_directory(3, "sort", 1);
    for item in make() {
        push(&mut builder, &mut disk, item);
    }
    let manifest = finish(builder, &mut disk);
    let mut reader = open(manifest, &disk);
    let actual = (0..reader.len())
        .map(|index| get(&mut reader, &disk, index).unwrap())
        .collect::<Vec<_>>();
    let followed: Vec<Option<String>> = vec![None; 3000];
    assert_eq!(
        visible_results_signature(&actual, &followed, actual.len()),
        visible_results_signature(&expected, &followed, expected.len())
    );
}

#[test]
fn chunk_budget_and_manifest_cleanup_are_bounded() {
    let mut disk = Disk::new();
    let mut builder = ResultStoreBuilder::new_in_directory(4, "chunk", 1);
    for index in 0..50_000 {
        push(&mut builder, &mut disk, result(index, &format!("Item {index:05}")));
    }
    assert!(builder.peak_chunk_bytes() <= RESULT_STORE_CHUNK_BYTES);
    let manifest = finish(builder, &mut disk);
    assert_eq!(manifest.count, 50_000);
    assert!(disk.contains_key(manifest.path()));
    assert_eq!(disk.len(), 1);
}

#[test]
fn merge_uses_at_most_configured_fan_in() {
    assert_eq!(RESULT_STORE_MERGE_FAN_IN, 32);
    assert!(RESULT_STORE_CHANNEL_CAPACITY > 0);
}

#[test]
fn merge_passes_bring_many_runs_down_to_one_group() {
    let mut disk = Disk::new();
    let mut builder = ResultStoreBuilder::new_in_directory(5, "passes", 1);
    for index in 0..70 {
        push(&mut builder, &mut disk, result(index, &format!("Item {index:02}")));
        let run = builder.flush_chunk().unwrap();
        let path = write(&mut disk, run);
        builder.run_written(path);
    }
    assert_eq!(builder.runs.len(), 70);
    let manifest = finish(builder, &mut disk);
    let mut reader = open(manifest, &disk);
    assert_eq!(reader.len(), 70);
    assert_eq!(get(&mut reader, &disk, 0).unwrap().score, 69);
    assert_eq!(get(&mut reader, &disk, 69).unwrap().score, 0);
}

#[test]
fn large_records_are_flushed_before_the_chunk_grows() {
    let mut disk = Disk::new();
    let mut builder = ResultStoreBuilder::new_in_directory(10, "large", 1);
    let large_detail = "x".repeat(1024 * 1024);
    for index in 0..20 {
        let mut item = result(index, "Large");
        item.score_detail = large_detail.clone();
        push(&mut builder, &mut disk, item);
    }
    assert!(builder.peak_chunk_bytes() <= RESULT_STORE_CHUNK_BYTES);
    assert_eq!(builder.runs.len(), 2);
}

#[test]
fn sorted_runs_merge_by_rank_and_then_by_sequence() {
    let record = |score: usize, sequence: u64| {
        StoredResultRecord::from_search_result(result(score, "Same"), sequence).unwrap()
    };
    let merged = merge_sorted_runs(vec![
        vec![record(9, 4), record(5, 1)],
        vec![record(9, 2), record(7, 3)],
    ]);
    let sequences = merged.iter().map(|m| m.sequence).collect::<Vec<_>>();
    assert_eq!(sequences, vec![2, 4, 3, 1]);
}

#[test]
fn plugin_results_are_not_stored() {
    let mut item = result(1, "Plugin");
    item.target = LaunchTarget::Plugin("calc".to_string());
    assert_eq!(
        StoredResultRecord::from_search_result(item, 0).unwrap_err(),
        StoreError::PluginResult
    );
}

#[test]
fn damaged_records_are_refused() {
    let stored = StoredResultRecord::from_search_result(result(1, "Damaged"), 3).unwrap();
    let mut bytes = Vec::new();
    write_record(&mut bytes, &stored);
    assert_eq!(stored.encoded_len() + 4, bytes.len());
    let mut at = 0;
    assert_eq!(
        read_record(&bytes[..bytes.len() - 1], &mut at).unwrap_err(),
        StoreError::UnexpectedEnd
    );
    let mut longer = bytes[4..].to_vec();
    longer.push(0);
    assert!(decode_record_body(&longer).is_err());
    assert_eq!(
        ranking_kind_from_byte(9).unwrap_err(),
        StoreError::InvalidRankingKind
    );
    for kind in [
        ResultRankingKind::Heuristic,
        ResultRankingKind::RecentOrder,
        ResultRankingKind::QueryLaunchRule,
        ResultRankingKind::Plugin,
    ] {
        assert_eq!(ranking_kind_from_byte(ranking_kind_to_byte(kind)).unwrap(), kind);
    }
}

#[test]
fn invalid_utf8_is_refused() {
    let stored = StoredResultRecord::from_search_result(result(1, "Text"), 3).unwrap();
    let mut bytes = Vec::new();
    write_record(&mut bytes, &stored);
    let place = bytes.windows(4).position(|w| w == b"Text").unwrap();
    bytes[place] = 0xff;
    let mut at = 0;
    assert_eq!(
        read_record(&bytes, &mut at).unwrap_err(),
        StoreError::InvalidUtf8
    );
}

#[test]
fn stores_lie_beside_the_program_under_their_prefix() {
    let directory = result_store_directory(r"C:\App");
    assert!(directory.starts_with(r"C:\App"));
    let builder = ResultStoreBuilder::new_in_directory(7, &directory, 42);
    let name = builder.final_path();
    let file = name.rsplit('\\').next().unwrap();
    assert!(is_result_store_file(file));
    assert!(!is_result_store_file("settings.txt"));
}

#[test]
fn text_lengths_count_bytes() {
    assert_eq!(encoded_string_len("abc"), 7);
    assert_eq!(encoded_string_len("ứ"), 7);
}

#[test]
fn store_with_another_count_is_refused() {
    let mut bytes = Vec::new();
    append_header(&mut bytes, true, 3);
    let manifest = ResultStoreManifest {
        generation: 1,
        count: 2,
        path: Some("store.bin".to_string()),
        sparse_offsets: Vec::new(),
    };
    assert_eq!(
        open_store(manifest, &bytes).unwrap_err(),
        StoreError::CountMismatch
    );
}

#[test]
fn every_full_chunk_becomes_a_run_of_its_own() {
    let mut disk = Disk::new();
    let mut builder = ResultStoreBuilder::new_in_directory(3, r"C:\Stores", 9);
    for index in 0..7usize {
        let mut large = result(index, "large");
        large.score_detail = "x".repeat(3_000_000);
        push(&mut builder, &mut disk, large);
    }
    assert_eq!(
        builder.runs,
        vec![
            r"C:\Stores\flashlaunch-search-3-9-run-0.bin",
            r"C:\Stores\flashlaunch-search-3-9-run-1.bin",
            r"C:\Stores\flashlaunch-search-3-9-run-2.bin",
        ]
    );
    assert_eq!(builder.next_run_index, 3);
    assert_eq!(disk.len(), 3);
    let manifest = finish(builder, &mut disk);
    assert_eq!(manifest.generation, 3);
    assert_eq!(manifest.count, 7);
    assert_eq!(manifest.sparse_offsets, vec![HEADER_BYTES]);
}
