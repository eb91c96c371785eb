//! Building a result store: records gather in a chunk, full chunks become sorted
//! runs, and runs are merged until one pass can write the store.

use crate::arith;
use crate::ordering;
use crate::ordering::Ranked;
use crate::result_store;
use crate::result_store::{RESULT_STORE_CHUNK_BYTES, RESULT_STORE_MERGE_FAN_IN};
use crate::results::{RankedCandidate, SearchResult};
use crate::store_codec;
use crate::store_codec::{RecordModel, StoreError, StoredResultRecord};
use crate::text;
use crate::winpath;
use vstd::prelude::*;

verus! {

/// The bytes of records kept in memory.
pub open spec fn chunk_size(records: Seq<StoredResultRecord>) -> nat
    decreases records.len(),
{
    if records.len() == 0 {
        0
    } else {
        chunk_size(records.drop_last()) + store_codec::record_size(records.last()@)
    }
}

/// The path of a run.
pub open spec fn run_path(
    directory: Seq<char>,
    generation: u64,
    id: u64,
    kind: Seq<char>,
    index: usize,
) -> Seq<char> {
    winpath::joined(
        directory,
        "flashlaunch-search-"@ + text::decimal(generation as int) + "-"@ + text::decimal(id as int)
            + "-"@ + kind + "-"@ + text::decimal(index as int) + ".bin"@,
    )
}

/// The path of a finished store.
pub open spec fn store_path(directory: Seq<char>, generation: u64, id: u64) -> Seq<char> {
    winpath::joined(
        directory,
        "flashlaunch-search-"@ + text::decimal(generation as int) + "-"@ + text::decimal(id as int)
            + "-final.bin"@,
    )
}

/// The directory of the stores.
pub fn result_store_directory(app_dir: &str) -> (r: String)
    ensures
        r@ == winpath::joined(winpath::joined(app_dir@, "TEMP"@), "search-cache"@),
{
    winpath::join_paths(winpath::join_paths(app_dir, "TEMP").as_str(), "search-cache")
}

/// Whether a file is left over from a store.
pub fn is_result_store_file(file_name: &str) -> (r: bool)
    ensures
        r == text::has_prefix(file_name@, "flashlaunch-search-"@),
{
    let name = text::chars_of(file_name);
    let prefix = text::chars_of("flashlaunch-search-");
    text::begins_with(name.as_slice(), prefix.as_slice())
}

/// The number of runs left after a merge of up to thirty-two at a time.
pub open spec fn merged_count(runs: nat) -> nat {
    ((runs + 31) / 32) as nat
}

/// A run to write.
#[derive(Debug, PartialEq, Eq)]
pub struct RunOutput {
    pub path: String,
    pub bytes: Vec<u8>,
}

/// What remains to be done after a result was handed in.
#[derive(Debug, PartialEq, Eq)]
pub enum PushStep {
    /// Nothing: the record is in the chunk.
    Stored,
    /// The chunk is full: the run is to be written, and the record handed back.
    Flush(RunOutput, StoredResultRecord),
}

/// Runs to merge into one.
#[derive(Debug, PartialEq, Eq)]
pub struct MergeGroup {
    pub inputs: Vec<String>,
    pub output: String,
}

/// A finished store.
#[derive(Debug, PartialEq, Eq)]
pub struct ResultStoreManifest {
    pub generation: u64,
    pub count: usize,
    pub path: Option<String>,
    pub sparse_offsets: Vec<u64>,
}

impl ResultStoreManifest {
    /// The path of the store.
    pub fn path(&self) -> (r: &str)
        requires
            self.path is Some,
        ensures
            r@ == self.path->0@,
    {
        match &self.path {
            Some(path) => path.as_str(),
            None => "",
        }
    }
}

/// A store that is being built.
#[derive(Debug, PartialEq, Eq)]
pub struct ResultStoreBuilder {
    pub generation: u64,
    pub directory: String,
    pub id: u64,
    pub chunk: Vec<StoredResultRecord>,
    pub chunk_bytes: usize,
    pub peak_chunk_bytes: usize,
    pub next_sequence: u64,
    pub runs: Vec<String>,
    pub next_run_index: usize,
}

impl ResultStoreBuilder {
    /// The counted bytes are those of the chunk, and the most so far is no less.
    pub open spec fn well_formed(&self) -> bool {
        &&& self.chunk_bytes == arith::min_int(chunk_size(self.chunk@) as int, usize::MAX as int)
        &&& self.chunk_bytes <= self.peak_chunk_bytes
    }

    /// More than one record never takes more than a chunk may.
    pub open spec fn within_budget(&self) -> bool {
        self.chunk@.len() <= 1 || self.chunk_bytes <= RESULT_STORE_CHUNK_BYTES
    }

    /// A record of this size does not fit beside what is in the chunk.
    pub open spec fn is_full_for(&self, size: nat) -> bool {
        self.chunk@.len() > 0 && chunk_size(self.chunk@) + size > RESULT_STORE_CHUNK_BYTES
    }

    /// The run that the chunk becomes.
    pub open spec fn writes(&self, run: RunOutput) -> bool {
        &&& run.path@ == run_path(
            self.directory@,
            self.generation,
            self.id,
            "run"@,
            self.next_run_index,
        )
        &&& run.bytes@ == result_store::file_bytes(
            false,
            store_codec::models(ordering::ordered(self.chunk@)),
        )
    }

    /// The builder has the same names to give.
    pub open spec fn same_names(&self, other: &ResultStoreBuilder) -> bool {
        &&& self.generation == other.generation
        &&& self.directory@ == other.directory@
        &&& self.id == other.id
    }

    /// The builder after one more record in the chunk.
    pub open spec fn keeps(&self, before: &ResultStoreBuilder, record: RecordModel) -> bool {
        &&& store_codec::models(self.chunk@) == store_codec::models(before.chunk@).push(record)
        &&& self.runs@ == before.runs@
        &&& self.next_run_index == before.next_run_index
        &&& self.peak_chunk_bytes == arith::max_int(
            before.peak_chunk_bytes as int,
            self.chunk_bytes as int,
        )
    }

    /// An empty builder.
    pub fn new_in_directory(generation: u64, directory: &str, id: u64) -> (r: ResultStoreBuilder)
        ensures
            r.generation == generation,
            r.directory@ == directory@,
            r.id == id,
            r.chunk@.len() == 0,
            r.runs@.len() == 0,
            r.next_sequence == 0,
            r.next_run_index == 0,
            r.peak_chunk_bytes == 0,
            r.well_formed(),
            r.within_budget(),
    {
        ResultStoreBuilder {
            generation,
            directory: directory.to_owned(),
            id,
            chunk: Vec::new(),
            chunk_bytes: 0,
            peak_chunk_bytes: 0,
            next_sequence: 0,
            runs: Vec::new(),
            next_run_index: 0,
        }
    }

    fn run_name(&self, kind: &str) -> (r: String)
        ensures
            r@ == run_path(
                self.directory@,
                self.generation,
                self.id,
                kind@,
                self.next_run_index,
            ),
    {
        let mut name = text::cat5(
            "flashlaunch-search-",
            text::decimal_u64(self.generation).as_str(),
            "-",
            text::decimal_u64(self.id).as_str(),
            "-",
        );
        name.append(kind);
        name.append("-");
        name.append(text::decimal_u64(self.next_run_index as u64).as_str());
        name.append(".bin");
        winpath::join_paths(self.directory.as_str(), name.as_str())
    }

    /// The path of the next run; the one after it gets the next number.
    pub fn next_run_path(&mut self, kind: &str) -> (r: String)
        ensures
            r@ == run_path(
                old(self).directory@,
                old(self).generation,
                old(self).id,
                kind@,
                old(self).next_run_index,
            ),
            final(self).same_names(old(self)),
            final(self).chunk@ == old(self).chunk@,
            final(self).chunk_bytes == old(self).chunk_bytes,
            final(self).peak_chunk_bytes == old(self).peak_chunk_bytes,
            final(self).next_sequence == old(self).next_sequence,
            final(self).runs@ == old(self).runs@,
            final(self).next_run_index == arith::min_int(
                old(self).next_run_index + 1,
                usize::MAX as int,
            ),
    {
        let name = self.run_name(kind);
        self.next_run_index = self.next_run_index.saturating_add(1);
        name
    }

    /// The path of the finished store.
    pub fn final_path(&self) -> (r: String)
        ensures
            r@ == store_path(self.directory@, self.generation, self.id),
    {
        let name = text::cat5(
            "flashlaunch-search-",
            text::decimal_u64(self.generation).as_str(),
            "-",
            text::decimal_u64(self.id).as_str(),
            "-final.bin",
        );
        winpath::join_paths(self.directory.as_str(), name.as_str())
    }

    /// The most bytes that a chunk has taken.
    pub fn peak_chunk_bytes(&self) -> (r: usize)
        ensures
            r == self.peak_chunk_bytes,
    {
        self.peak_chunk_bytes
    }
}

proof fn lemma_chunk_push(records: Seq<StoredResultRecord>, record: StoredResultRecord)
    ensures
        chunk_size(records.push(record)) == chunk_size(records) + store_codec::record_size(record@),
        store_codec::models(records.push(record)) == store_codec::models(records).push(record@),
{
    assert(records.push(record).drop_last() =~= records);
    assert(store_codec::models(records.push(record)) =~= store_codec::models(records).push(
        record@,
    ));
}

proof fn lemma_chunk_size_models(a: Seq<StoredResultRecord>, b: Seq<StoredResultRecord>)
    requires
        a.len() == b.len(),
        forall|i: int| 0 <= i < a.len() ==> (#[trigger] a[i])@ == b[i]@,
    ensures
        chunk_size(a) == chunk_size(b),
    decreases a.len(),
{
    if a.len() > 0 {
        lemma_chunk_size_models(a.drop_last(), b.drop_last());
        assert(a.last() == a[a.len() - 1]);
    }
}

proof fn lemma_chunk_size_place(a: Seq<StoredResultRecord>, b: Seq<StoredResultRecord>)
    ensures
        chunk_size(a + b) == chunk_size(a) + chunk_size(b),
    decreases b.len(),
{
    if b.len() == 0 {
        assert(a + b =~= a);
    } else {
        assert((a + b).drop_last() =~= a + b.drop_last());
        lemma_chunk_size_place(a, b.drop_last());
    }
}

/// Putting records in order changes nothing about the bytes they take.
pub proof fn lemma_chunk_size_ordered(records: Seq<StoredResultRecord>)
    ensures
        chunk_size(ordering::ordered(records)) == chunk_size(records),
        ordering::ordered(records).len() == records.len(),
    decreases records.len(),
{
    if records.len() > 0 {
        let rest = ordering::ordered(records.drop_last());
        let item = records.last();
        lemma_chunk_size_ordered(records.drop_last());
        let p = ordering::place_of(rest, item.rank_key());
        ordering::lemma_ordered_in_order(records.drop_last());
        ordering::lemma_place(rest, item.rank_key());
        let front = rest.take(p);
        let back = rest.skip(p);
        assert(rest =~= front + back);
        lemma_chunk_size_place(front, back);
        assert(ordering::ordered(records) =~= front.push(item) + back);
        lemma_chunk_size_place(front.push(item), back);
        lemma_chunk_push(front, item);
    }
}

impl ResultStoreBuilder {
    /// Puts a record into the chunk.
    fn store(&mut self, record: StoredResultRecord)
        requires
            old(self).well_formed(),
        ensures
            final(self).well_formed(),
            final(self).keeps(old(self), record@),
            final(self).same_names(old(self)),
            final(self).next_sequence == old(self).next_sequence,
            final(self).chunk@ == old(self).chunk@.push(record),
    {
        let size: usize = record.encoded_len();
        proof {
            lemma_chunk_push(self.chunk@, record);
        }
        self.chunk_bytes = self.chunk_bytes.saturating_add(size);
        if self.peak_chunk_bytes < self.chunk_bytes {
            self.peak_chunk_bytes = self.chunk_bytes;
        }
        self.chunk.push(record);
    }

    fn sort_chunk(&mut self)
        ensures
            final(self).chunk@ == ordering::ordered(old(self).chunk@),
            ordering::in_order(final(self).chunk@),
            final(self).same_names(old(self)),
            final(self).chunk_bytes == old(self).chunk_bytes,
            final(self).peak_chunk_bytes == old(self).peak_chunk_bytes,
            final(self).next_sequence == old(self).next_sequence,
            final(self).runs@ == old(self).runs@,
            final(self).next_run_index == old(self).next_run_index,
    {
        let mut chunk: Vec<StoredResultRecord> = Vec::new();
        std::mem::swap(&mut chunk, &mut self.chunk);
        self.chunk = ordering::sort_in_order(chunk);
    }

    /// Sorts the chunk and makes a run of it, unless there is nothing in it. The
    /// chunk stays until the run is written.
    pub fn flush_chunk(&mut self) -> (r: Option<RunOutput>)
        requires
            old(self).well_formed(),
        ensures
            final(self).well_formed(),
            final(self).same_names(old(self)),
            final(self).chunk_bytes == old(self).chunk_bytes,
            final(self).peak_chunk_bytes == old(self).peak_chunk_bytes,
            final(self).next_sequence == old(self).next_sequence,
            final(self).runs@ == old(self).runs@,
            final(self).chunk@ == ordering::ordered(old(self).chunk@),
            final(self).chunk@.len() == old(self).chunk@.len(),
            match r {
                None => old(self).chunk@.len() == 0 && final(self).next_run_index
                    == old(self).next_run_index,
                Some(run) => {
                    &&& old(self).chunk@.len() > 0
                    &&& old(self).writes(run)
                    &&& final(self).next_run_index == arith::min_int(
                        old(self).next_run_index + 1,
                        usize::MAX as int,
                    )
                },
            },
    {
        proof {
            lemma_chunk_size_ordered(self.chunk@);
        }
        if self.chunk.len() == 0 {
            proof {
                assert(ordering::ordered(self.chunk@) =~= self.chunk@);
            }
            return None;
        }
        self.sort_chunk();
        let path = self.next_run_path("run");
        let bytes = result_store::write_run(self.chunk.as_slice());
        Some(RunOutput { path, bytes })
    }

    /// The run is written: it counts among the runs, and the chunk is empty.
    pub fn run_written(&mut self, path: String)
        ensures
            final(self).chunk@.len() == 0,
            final(self).chunk_bytes == 0,
            final(self).well_formed(),
            final(self).within_budget(),
            final(self).same_names(old(self)),
            final(self).runs@ == old(self).runs@.push(path),
            final(self).peak_chunk_bytes == old(self).peak_chunk_bytes,
            final(self).next_sequence == old(self).next_sequence,
            final(self).next_run_index == old(self).next_run_index,
    {
        self.runs.push(path);
        self.chunk = Vec::new();
        self.chunk_bytes = 0;
    }

    /// Hands in a record. It goes into the chunk, unless the chunk is too full for
    /// it: then the run that the chunk becomes is to be written first.
    fn push_stored(&mut self, record: StoredResultRecord) -> (r: PushStep)
        requires
            old(self).well_formed(),
        ensures
            final(self).well_formed(),
            final(self).same_names(old(self)),
            final(self).next_sequence == old(self).next_sequence,
            old(self).pushes(record@, r, final(self)),
    {
        let size: usize = record.encoded_len();
        if self.chunk.len() > 0 && self.chunk_bytes.saturating_add(size) > RESULT_STORE_CHUNK_BYTES {
            match self.flush_chunk() {
                Some(run) => PushStep::Flush(run, record),
                None => PushStep::Stored,
            }
        } else {
            proof {
                lemma_chunk_push(self.chunk@, record);
                assert(self.chunk@.len() == 0 ==> chunk_size(self.chunk@) == 0);
            }
            self.store(record);
            PushStep::Stored
        }
    }

    /// What handing in a record does.
    pub open spec fn pushes(
        &self,
        record: RecordModel,
        step: PushStep,
        after: &ResultStoreBuilder,
    ) -> bool {
        match step {
            PushStep::Stored => {
                &&& !self.is_full_for(store_codec::record_size(record))
                &&& after.keeps(self, record)
                &&& after.within_budget()
                &&& self.peak_chunk_bytes <= RESULT_STORE_CHUNK_BYTES && store_codec::record_size(
                    record,
                ) <= RESULT_STORE_CHUNK_BYTES ==> after.peak_chunk_bytes
                    <= RESULT_STORE_CHUNK_BYTES
            },
            PushStep::Flush(run, waiting) => {
                &&& self.is_full_for(store_codec::record_size(record))
                &&& self.writes(run)
                &&& waiting@ == record
                &&& after.chunk@ == ordering::ordered(self.chunk@)
                &&& after.runs@ == self.runs@
                &&& after.peak_chunk_bytes == self.peak_chunk_bytes
                &&& after.next_run_index == arith::min_int(
                    self.next_run_index + 1,
                    usize::MAX as int,
                )
                &&& self.within_budget() ==> after.within_budget()
            },
        }
    }

    /// The run of a full chunk is written, and the record that had to wait goes
    /// into the new chunk.
    pub fn resume(&mut self, path: String, record: StoredResultRecord)
        ensures
            final(self).well_formed(),
            final(self).within_budget(),
            final(self).same_names(old(self)),
            final(self).runs@ == old(self).runs@.push(path),
            final(self).chunk@ == seq![record],
            final(self).next_sequence == old(self).next_sequence,
            final(self).next_run_index == old(self).next_run_index,
            final(self).peak_chunk_bytes == arith::max_int(
                old(self).peak_chunk_bytes as int,
                final(self).chunk_bytes as int,
            ),
            old(self).peak_chunk_bytes <= RESULT_STORE_CHUNK_BYTES && store_codec::record_size(
                record@,
            ) <= RESULT_STORE_CHUNK_BYTES ==> final(self).peak_chunk_bytes
                <= RESULT_STORE_CHUNK_BYTES,
    {
        self.run_written(path);
        self.store(record);
        proof {
            assert(self.chunk@ =~= seq![record]);
            assert(self.chunk@.drop_last() =~= Seq::<StoredResultRecord>::empty());
            assert(chunk_size(self.chunk@.drop_last()) == 0);
        }
    }

    /// Hands in a result. One of a plugin is refused.
    pub fn push(&mut self, result: SearchResult) -> (r: Result<PushStep, StoreError>)
        requires
            old(self).well_formed(),
        ensures
            final(self).well_formed(),
            final(self).same_names(old(self)),
            match store_codec::result_model(result, old(self).next_sequence) {
                None => r == Err::<PushStep, StoreError>(StoreError::PluginResult) && *final(self)
                    == *old(self),
                Some(m) => {
                    &&& r matches Ok(step) && old(self).pushes(m, step, final(self))
                    &&& final(self).next_sequence == next_number(old(self).next_sequence)
                },
            },
    {
        match StoredResultRecord::from_search_result(result, self.next_sequence) {
            Err(e) => Err(e),
            Ok(record) => {
                self.next_sequence = self.next_sequence.wrapping_add(1);
                Ok(self.push_stored(record))
            },
        }
    }

    /// Hands in a candidate. One that holds the result of a plugin is refused.
    pub fn push_ranked(&mut self, candidate: RankedCandidate) -> (r: Result<PushStep, StoreError>)
        requires
            old(self).well_formed(),
        ensures
            final(self).well_formed(),
            final(self).same_names(old(self)),
            match store_codec::candidate_model(candidate, old(self).next_sequence) {
                None => r == Err::<PushStep, StoreError>(StoreError::PluginResult) && *final(self)
                    == *old(self),
                Some(m) => {
                    &&& r matches Ok(step) && old(self).pushes(m, step, final(self))
                    &&& final(self).next_sequence == next_number(old(self).next_sequence)
                },
            },
    {
        match StoredResultRecord::from_ranked_candidate(candidate, self.next_sequence) {
            Err(e) => Err(e),
            Ok(record) => {
                self.next_sequence = self.next_sequence.wrapping_add(1);
                Ok(self.push_stored(record))
            },
        }
    }
}

/// The number after a number; the last is followed by the first.
pub open spec fn next_number(n: u64) -> int {
    if n == u64::MAX {
        0
    } else {
        n + 1
    }
}

/// A group of a merge pass: its runs, and the run that it becomes.
pub open spec fn is_group(before: &ResultStoreBuilder, group: MergeGroup, g: int) -> bool {
    &&& group.inputs@ == before.runs@.subrange(
        32 * g,
        arith::min_int(32 * (g + 1), before.runs@.len() as int),
    )
    &&& group.output@ == run_path(
        before.directory@,
        before.generation,
        before.id,
        "merge"@,
        arith::min_int(before.next_run_index + g, usize::MAX as int) as usize,
    )
}

/// A merge pass leaves fewer runs: merging comes to an end.
pub proof fn lemma_merge_passes_end(runs: nat)
    requires
        runs > RESULT_STORE_MERGE_FAN_IN,
    ensures
        1 <= merged_count(runs) < runs,
{
}

impl ResultStoreBuilder {
    /// The next merge pass, where there are too many runs for one merge: groups of
    /// up to thirty-two runs, in order. The builder lets go of its runs.
    pub fn start_merge_pass(&mut self) -> (r: Option<Vec<MergeGroup>>)
        ensures
            final(self).same_names(old(self)),
            final(self).chunk@ == old(self).chunk@,
            final(self).chunk_bytes == old(self).chunk_bytes,
            final(self).peak_chunk_bytes == old(self).peak_chunk_bytes,
            final(self).next_sequence == old(self).next_sequence,
            match r {
                None => old(self).runs@.len() <= RESULT_STORE_MERGE_FAN_IN && final(self).runs@
                    == old(self).runs@ && final(self).next_run_index == old(self).next_run_index,
                Some(groups) => {
                    &&& old(self).runs@.len() > RESULT_STORE_MERGE_FAN_IN
                    &&& groups@.len() == merged_count(old(self).runs@.len())
                    &&& forall|g: int|
                        0 <= g < groups@.len() ==> is_group(old(self), #[trigger] groups@[g], g)
                    &&& final(self).runs@.len() == 0
                    &&& final(self).next_run_index == arith::min_int(
                        old(self).next_run_index + groups@.len(),
                        usize::MAX as int,
                    )
                },
            },
    {
        if self.runs.len() <= RESULT_STORE_MERGE_FAN_IN {
            return None;
        }
        let mut runs: Vec<String> = Vec::new();
        std::mem::swap(&mut runs, &mut self.runs);
        let mut groups: Vec<MergeGroup> = Vec::new();
        let mut at: usize = 0;
        while at < runs.len()
            invariant
                runs@ == old(self).runs@,
                at <= runs.len(),
                groups@.len() == merged_count(at as nat),
                at == runs.len() || at == 32 * groups@.len(),
                forall|g: int|
                    0 <= g < groups@.len() ==> is_group(old(self), #[trigger] groups@[g], g),
                self.runs@.len() == 0,
                self.same_names(old(self)),
                self.chunk@ == old(self).chunk@,
                self.chunk_bytes == old(self).chunk_bytes,
                self.peak_chunk_bytes == old(self).peak_chunk_bytes,
                self.next_sequence == old(self).next_sequence,
                self.next_run_index == arith::min_int(
                    old(self).next_run_index + groups@.len(),
                    usize::MAX as int,
                ),
            decreases runs.len() - at,
        {
            let left: usize = runs.len() - at;
            let size: usize = if left > RESULT_STORE_MERGE_FAN_IN {
                RESULT_STORE_MERGE_FAN_IN
            } else {
                left
            };
            let mut inputs: Vec<String> = Vec::new();
            let mut i: usize = 0;
            while i < size
                invariant
                    runs@ == old(self).runs@,
                    i <= size,
                    at + size <= runs.len(),
                    inputs@ == runs@.subrange(at as int, at + i),
                decreases size - i,
            {
                inputs.push(runs[at + i].clone());
                i += 1;
                proof {
                    assert(inputs@ =~= runs@.subrange(at as int, at + i));
                }
            }
            let output = self.next_run_path("merge");
            groups.push(MergeGroup { inputs, output });
            at += size;
        }
        Some(groups)
    }

    /// The groups of a pass are merged: their outputs are the runs.
    pub fn finish_merge_pass(&mut self, outputs: Vec<String>)
        ensures
            final(self).runs@ == outputs@,
            final(self).same_names(old(self)),
            final(self).chunk@ == old(self).chunk@,
            final(self).chunk_bytes == old(self).chunk_bytes,
            final(self).peak_chunk_bytes == old(self).peak_chunk_bytes,
            final(self).next_sequence == old(self).next_sequence,
            final(self).next_run_index == old(self).next_run_index,
    {
        self.runs = outputs;
    }

    /// What is known of the finished store.
    pub fn manifest(&self, count: usize, sparse_offsets: Vec<u64>) -> (r: ResultStoreManifest)
        ensures
            r.generation == self.generation,
            r.count == count,
            r.path matches Some(path) && path@ == store_path(
                self.directory@,
                self.generation,
                self.id,
            ),
            r.sparse_offsets@ == sparse_offsets@,
    {
        ResultStoreManifest {
            generation: self.generation,
            count,
            path: Some(self.final_path()),
            sparse_offsets,
        }
    }
}

} // verus!
