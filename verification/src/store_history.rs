//! What comes of building a store: whatever was handed in is in the finished store, in
//! order, and nothing else.
//!
//! Files are maps from paths to bytes here. The steps are those of the builder and of the
//! merging of runs; what they do to the files is what their results ask for.

use crate::arith;
use crate::bytes;
use crate::ordering;
use crate::ordering::Ranked;
use crate::result_store;
use crate::result_store::StoreProgress;
use crate::store_builder;
use crate::store_builder::{MergeGroup, PushStep, ResultStoreBuilder, ResultStoreManifest, RunOutput};
use crate::store_codec;
use crate::store_codec::{RecordModel, StoredResultRecord};
use crate::text;
use crate::winpath;
use vstd::multiset::Multiset;
use vstd::prelude::*;

verus! {

// ---------------------------------------------------------------------------
// Paths of runs
// ---------------------------------------------------------------------------

/// A kind of run: one of a chunk, or one that was merged.
pub open spec fn is_run_kind(kind: Seq<char>) -> bool {
    kind == "run"@ || kind == "merge"@
}

/// What the names of the files of one store begin with.
spec fn name_front(generation: u64, id: u64) -> Seq<char> {
    "flashlaunch-search-"@ + text::decimal(generation as int) + "-"@ + text::decimal(id as int)
        + "-"@
}

proof fn lemma_joined_names_differ(directory: Seq<char>, a: Seq<char>, b: Seq<char>)
    requires
        a.len() > 2 && winpath::unparted(a),
        b.len() > 2 && winpath::unparted(b),
        a != b,
    ensures
        winpath::joined(directory, a) != winpath::joined(directory, b),
{
    winpath::lemma_joined_name(directory, a);
    winpath::lemma_joined_name(directory, b);
    let base = winpath::front_of_names(directory);
    if base + a == base + b {
        assert((base + a).skip(base.len() as int) =~= a);
        assert((base + b).skip(base.len() as int) =~= b);
    }
}

proof fn lemma_both_unparted(a: Seq<char>, b: Seq<char>)
    requires
        winpath::unparted(a),
        winpath::unparted(b),
    ensures
        winpath::unparted(a + b),
{
    assert forall|i: int| 0 <= i < (a + b).len() implies !winpath::is_sep(#[trigger] (a + b)[i])
        && (a + b)[i] != ':' by {
        if i < a.len() {
            assert((a + b)[i] == a[i]);
        } else {
            assert((a + b)[i] == b[i - a.len()]);
        }
    }
}

proof fn lemma_decimal_unparted(i: int)
    ensures
        winpath::unparted(text::decimal(i)),
{
    text::lemma_decimal_chars(i);
}

proof fn lemma_front(generation: u64, id: u64, rest: Seq<char>)
    requires
        winpath::unparted(rest),
    ensures
        (name_front(generation, id) + rest).len() > 2,
        winpath::unparted(name_front(generation, id) + rest),
{
    reveal_strlit("flashlaunch-search-");
    reveal_strlit("-");
    let lead = "flashlaunch-search-"@;
    let x = text::decimal(generation as int);
    let y = text::decimal(id as int);
    lemma_decimal_unparted(generation as int);
    lemma_decimal_unparted(id as int);
    lemma_both_unparted(lead, x);
    lemma_both_unparted(lead + x, "-"@);
    lemma_both_unparted(lead + x + "-"@, y);
    lemma_both_unparted(lead + x + "-"@ + y, "-"@);
    lemma_both_unparted(name_front(generation, id), rest);
}

/// Two runs of one store have different paths, unless they are of one kind and have one
/// number; and none has the path of the store itself.
pub proof fn lemma_run_paths_differ(
    directory: Seq<char>,
    generation: u64,
    id: u64,
    kind: Seq<char>,
    index: usize,
    other_kind: Seq<char>,
    other: usize,
)
    requires
        is_run_kind(kind),
        is_run_kind(other_kind),
    ensures
        kind != other_kind || index != other ==> store_builder::run_path(
            directory,
            generation,
            id,
            kind,
            index,
        ) != store_builder::run_path(directory, generation, id, other_kind, other),
        store_builder::run_path(directory, generation, id, kind, index)
            != store_builder::store_path(directory, generation, id),
{
    reveal_strlit("run");
    reveal_strlit("merge");
    reveal_strlit("-");
    reveal_strlit(".bin");
    reveal_strlit("-final.bin");
    let front = name_front(generation, id);
    let x = text::decimal(index as int);
    let y = text::decimal(other as int);
    let rest_a = kind + "-"@ + x + ".bin"@;
    let rest_b = other_kind + "-"@ + y + ".bin"@;
    let whole = "final.bin"@;
    reveal_strlit("final.bin");
    let a = front + rest_a;
    let b = front + rest_b;
    let c = front + whole;
    lemma_decimal_unparted(index as int);
    lemma_decimal_unparted(other as int);
    lemma_both_unparted(kind, "-"@);
    lemma_both_unparted(kind + "-"@, x);
    lemma_both_unparted(kind + "-"@ + x, ".bin"@);
    lemma_both_unparted(other_kind, "-"@);
    lemma_both_unparted(other_kind + "-"@, y);
    lemma_both_unparted(other_kind + "-"@ + y, ".bin"@);
    lemma_front(generation, id, rest_a);
    lemma_front(generation, id, rest_b);
    lemma_front(generation, id, whole);
    let lead = "flashlaunch-search-"@ + text::decimal(generation as int) + "-"@ + text::decimal(
        id as int,
    );
    assert(lead + "-"@ + kind + "-"@ + x + ".bin"@ =~= a);
    assert(lead + "-"@ + other_kind + "-"@ + y + ".bin"@ =~= b);
    assert(lead + "-final.bin"@ =~= c);
    assert(a[front.len() as int] == kind[0]);
    assert(b[front.len() as int] == other_kind[0]);
    assert(c[front.len() as int] == 'f');
    assert(a != c);
    lemma_joined_names_differ(directory, a, c);
    if kind != other_kind {
        assert(kind[0] != other_kind[0]);
        lemma_joined_names_differ(directory, a, b);
    } else if index != other {
        if a == b {
            let n = (front.len() + kind.len() + 1) as int;
            assert(a.len() == n + x.len() + 4);
            assert(b.len() == n + y.len() + 4);
            assert(a.subrange(n, n + x.len()) =~= x);
            assert(b.subrange(n, n + y.len()) =~= y);
            text::lemma_decimal_round_trip(index as int);
            text::lemma_decimal_round_trip(other as int);
        }
        lemma_joined_names_differ(directory, a, b);
    }
}

// ---------------------------------------------------------------------------
// Merging
// ---------------------------------------------------------------------------

/// No record comes before an earlier one.
pub open spec fn models_in_order(ms: Seq<RecordModel>) -> bool {
    forall|i: int, j: int|
        #![trigger ms[i], ms[j]]
        0 <= i < j < ms.len() ==> !ordering::key_before(
            store_codec::record_key(ms[j]),
            store_codec::record_key(ms[i]),
        )
}

/// The records of runs, in order.
pub open spec fn is_merge(out: Seq<RecordModel>, runs: Seq<Seq<RecordModel>>) -> bool {
    &&& models_in_order(out)
    &&& out.to_multiset() == result_store::flat(runs).to_multiset()
}

/// The heads are the first records of what is still to come of the runs.
pub open spec fn heads_of(
    heads: Seq<Option<StoredResultRecord>>,
    queues: Seq<Seq<RecordModel>>,
) -> bool {
    &&& heads.len() == queues.len()
    &&& forall|j: int|
        0 <= j < heads.len() ==> match #[trigger] heads[j] {
            Some(record) => queues[j].len() > 0 && queues[j][0] == record@,
            None => queues[j].len() == 0,
        }
}

/// How far a merge of runs has come: what is out, and what is still to come.
pub open spec fn merging(
    out: Seq<RecordModel>,
    queues: Seq<Seq<RecordModel>>,
    runs: Seq<Seq<RecordModel>>,
) -> bool {
    &&& models_in_order(out)
    &&& forall|j: int| 0 <= j < queues.len() ==> models_in_order(#[trigger] queues[j])
    &&& forall|k: int, j: int, m: int|
        #![trigger out[k], queues[j][m]]
        0 <= k < out.len() && 0 <= j < queues.len() && 0 <= m < queues[j].len()
            ==> !ordering::key_before(
            store_codec::record_key(queues[j][m]),
            store_codec::record_key(out[k]),
        )
    &&& out.to_multiset().add(result_store::flat(queues).to_multiset()) == result_store::flat(
        runs,
    ).to_multiset()
}

/// A merge begins with nothing out and everything still to come.
pub proof fn lemma_merge_begins(runs: Seq<Seq<RecordModel>>)
    requires
        forall|j: int| 0 <= j < runs.len() ==> models_in_order(#[trigger] runs[j]),
    ensures
        merging(Seq::empty(), runs, runs),
{
    let none = Seq::<RecordModel>::empty();
    none.to_multiset_ensures();
    assert(none.to_multiset() =~= Multiset::empty());
    assert(none.to_multiset().add(result_store::flat(runs).to_multiset()) =~= result_store::flat(
        runs,
    ).to_multiset());
}

/// A merge goes on with the leading head.
pub proof fn lemma_merge_goes_on(
    out: Seq<RecordModel>,
    queues: Seq<Seq<RecordModel>>,
    runs: Seq<Seq<RecordModel>>,
    heads: Seq<Option<StoredResultRecord>>,
    i: int,
)
    requires
        merging(out, queues, runs),
        heads_of(heads, queues),
        result_store::leads(heads, i),
    ensures
        merging(out.push(heads[i]->0@), queues.update(i, queues[i].drop_first()), runs),
{
    let m = queues[i][0];
    let lead = store_codec::record_key(m);
    let more = out.push(m);
    let after = queues.update(i, queues[i].drop_first());
    assert(heads[i] is Some);
    assert(m == heads[i]->0@);
    assert forall|j: int, k: int| 0 <= j < queues.len() && 0 <= k < queues[j].len() implies !ordering::key_before(
        store_codec::record_key(#[trigger] queues[j][k]),
        lead,
    ) by {
        assert(heads[j] is Some);
        let first = store_codec::record_key(queues[j][0]);
        assert(heads[j]->0.rank_key() == first);
        assert(!ordering::key_before(first, lead));
        assert(models_in_order(queues[j]));
        if k > 0 {
            assert(!ordering::key_before(store_codec::record_key(queues[j][k]), first));
            ordering::lemma_key_chain_weak(lead, first, store_codec::record_key(queues[j][k]));
        }
    }
    assert forall|a: int, b: int|
        #![trigger more[a], more[b]]
        0 <= a < b < more.len() implies !ordering::key_before(
        store_codec::record_key(more[b]),
        store_codec::record_key(more[a]),
    ) by {
        assert(more[a] == out[a]);
        if b < out.len() {
            assert(more[b] == out[b]);
        } else {
            assert(more[b] == queues[i][0]);
        }
    }
    assert forall|j: int| 0 <= j < after.len() implies models_in_order(#[trigger] after[j]) by {
        assert(models_in_order(queues[j]));
        if j == i {
            let d = queues[i].drop_first();
            assert forall|a: int, b: int|
                #![trigger d[a], d[b]]
                0 <= a < b < d.len() implies !ordering::key_before(
                store_codec::record_key(d[b]),
                store_codec::record_key(d[a]),
            ) by {
                assert(d[a] == queues[i][a + 1] && d[b] == queues[i][b + 1]);
            }
        }
    }
    assert forall|k: int, j: int, n: int|
        #![trigger more[k], after[j][n]]
        0 <= k < more.len() && 0 <= j < after.len() && 0 <= n < after[j].len() implies !ordering::key_before(
        store_codec::record_key(after[j][n]),
        store_codec::record_key(more[k]),
    ) by {
        let p = if j == i {
            n + 1
        } else {
            n
        };
        assert(after[j][n] == queues[j][p]);
        if k < out.len() {
            assert(more[k] == out[k]);
        }
    }
    result_store::lemma_flat_take(queues, i);
    out.to_multiset_ensures();
    assert(more.to_multiset().add(result_store::flat(after).to_multiset())
        =~= out.to_multiset().add(result_store::flat(queues).to_multiset()));
}

/// A merge without heads has come to its end: all records are out, in order.
pub proof fn lemma_merge_ends(
    out: Seq<RecordModel>,
    queues: Seq<Seq<RecordModel>>,
    runs: Seq<Seq<RecordModel>>,
    heads: Seq<Option<StoredResultRecord>>,
)
    requires
        merging(out, queues, runs),
        heads_of(heads, queues),
        forall|j: int| 0 <= j < heads.len() ==> (#[trigger] heads[j]) is None,
    ensures
        is_merge(out, runs),
{
    assert forall|j: int| 0 <= j < queues.len() implies (#[trigger] queues[j]).len() == 0 by {
        assert(heads[j] is None);
    }
    result_store::lemma_flat_empty(queues);
    let none = Seq::<RecordModel>::empty();
    none.to_multiset_ensures();
    assert(none.to_multiset() =~= Multiset::empty());
    assert(out.to_multiset() =~= result_store::flat(runs).to_multiset());
}


// ---------------------------------------------------------------------------
// Steps
// ---------------------------------------------------------------------------

/// What is in each file.
pub type Files = Map<Seq<char>, Seq<u8>>;

/// The records of a run, as they are read from its file.
pub open spec fn run_in(file: Seq<u8>) -> Option<Seq<RecordModel>> {
    match result_store::parsed_header(file, false) {
        Err(_) => None,
        Ok(n) => match result_store::parsed_many(file, 16, n) {
            Err(_) => None,
            Ok((ms, _)) => Some(ms),
        },
    }
}

/// The records of runs, as they are read from their files.
pub open spec fn runs_in(files: Files, paths: Seq<String>) -> Seq<Seq<RecordModel>> {
    Seq::new(paths.len(), |i: int| run_in(files[paths[i]@])->0)
}

/// Every run can be read.
pub open spec fn can_read(files: Files, paths: Seq<String>) -> bool {
    forall|i: int|
        0 <= i < paths.len() ==> files.contains_key((#[trigger] paths[i])@) && run_in(
            files[paths[i]@],
        ) is Some
}

/// How far the building of a store has come: the builder, the files, and the records that
/// were handed in.
pub struct StoreState {
    pub builder: ResultStoreBuilder,
    pub files: Files,
    pub pushed: Seq<RecordModel>,
}

/// A step of building a store.
pub enum BuildStep {
    /// A record went into the chunk.
    Stored(RecordModel),
    /// A record had to wait until the full chunk was written as a run.
    Flushed(RecordModel, RunOutput, StoredResultRecord, ResultStoreBuilder),
    /// The last chunk was written as a run.
    Closed(RunOutput),
    /// The runs were merged in groups. The files before each group and behind the last,
    /// and the records of the new runs.
    Merged(Seq<MergeGroup>, Seq<Files>, Seq<Seq<RecordModel>>),
}

/// The merge of a group of runs is written; the runs themselves may be gone.
pub open spec fn merges_group(
    before: Files,
    after: Files,
    group: MergeGroup,
    out: Seq<RecordModel>,
) -> bool {
    &&& can_read(before, group.inputs@)
    &&& is_merge(out, runs_in(before, group.inputs@))
    &&& after.contains_key(group.output@)
    &&& after[group.output@] == result_store::file_bytes(false, out)
    &&& forall|path: Seq<char>|
        #![trigger after.contains_key(path)]
        #![trigger after[path]]
        path != group.output@ && (forall|i: int|
            0 <= i < group.inputs@.len() ==> (#[trigger] group.inputs@[i])@ != path) ==> (
        after.contains_key(path) == before.contains_key(path) && after[path] == before[path])
}

/// A record is the next that is handed in.
pub open spec fn is_next(a: StoreState, record: RecordModel, b: StoreState) -> bool {
    &&& record.sequence == a.builder.next_sequence
    &&& b.builder.next_sequence == store_builder::next_number(a.builder.next_sequence)
    &&& b.pushed == a.pushed.push(record)
}

/// What a step does.
pub open spec fn steps(a: StoreState, step: BuildStep, b: StoreState) -> bool {
    &&& b.builder.same_names(&a.builder)
    &&& match step {
        BuildStep::Stored(record) => {
            &&& is_next(a, record, b)
            &&& a.builder.pushes(record, PushStep::Stored, &b.builder)
            &&& b.files == a.files
        },
        BuildStep::Flushed(record, run, waiting, between) => {
            &&& is_next(a, record, b)
            &&& a.builder.pushes(record, PushStep::Flush(run, waiting), &between)
            &&& b.builder.runs@ == between.runs@.push(run.path)
            &&& b.builder.chunk@ == seq![waiting]
            &&& b.builder.next_run_index == between.next_run_index
            &&& b.files == a.files.insert(run.path@, run.bytes@)
        },
        BuildStep::Closed(run) => {
            &&& a.builder.writes(run)
            &&& b.builder.runs@ == a.builder.runs@.push(run.path)
            &&& b.builder.chunk@.len() == 0
            &&& b.builder.next_run_index == arith::min_int(
                a.builder.next_run_index + 1,
                usize::MAX as int,
            )
            &&& b.builder.next_sequence == a.builder.next_sequence
            &&& b.files == a.files.insert(run.path@, run.bytes@)
            &&& b.pushed == a.pushed
        },
        BuildStep::Merged(groups, files, outs) => {
            &&& groups.len() == store_builder::merged_count(a.builder.runs@.len())
            &&& forall|g: int|
                0 <= g < groups.len() ==> store_builder::is_group(
                    &a.builder,
                    #[trigger] groups[g],
                    g,
                )
            &&& outs.len() == groups.len()
            &&& files.len() == groups.len() + 1
            &&& files[0] == a.files
            &&& files.last() == b.files
            &&& forall|g: int|
                0 <= g < groups.len() ==> merges_group(
                    files[g],
                    files[g + 1],
                    #[trigger] groups[g],
                    outs[g],
                )
            &&& b.builder.runs@.len() == groups.len()
            &&& forall|g: int|
                0 <= g < groups.len() ==> (#[trigger] b.builder.runs@[g])@ == groups[g].output@
            &&& b.builder.chunk@ == a.builder.chunk@
            &&& b.builder.next_run_index == arith::min_int(
                a.builder.next_run_index + groups.len(),
                usize::MAX as int,
            )
            &&& b.builder.next_sequence == a.builder.next_sequence
            &&& b.pushed == a.pushed
        },
    }
}

/// There is a number left for each run that a step makes.
pub open spec fn has_numbers_left(a: StoreState, step: BuildStep) -> bool {
    match step {
        BuildStep::Stored(_) => true,
        BuildStep::Merged(groups, _, _) => a.builder.next_run_index + groups.len() <= usize::MAX,
        _ => a.builder.next_run_index < usize::MAX,
    }
}

/// A path is that of a run with a number.
pub open spec fn has_number(builder: ResultStoreBuilder, path: Seq<char>, number: int) -> bool {
    &&& 0 <= number <= usize::MAX
    &&& path == store_builder::run_path(
        builder.directory@,
        builder.generation,
        builder.id,
        "run"@,
        number as usize,
    ) || path == store_builder::run_path(
        builder.directory@,
        builder.generation,
        builder.id,
        "merge"@,
        number as usize,
    )
}

/// A path has a number that was given out.
pub open spec fn is_named(builder: ResultStoreBuilder, path: Seq<char>) -> bool {
    exists|k: int| k < builder.next_run_index && #[trigger] has_number(builder, path, k)
}

/// The runs have paths of their own, with numbers that were given out.
pub open spec fn runs_are_named(builder: ResultStoreBuilder) -> bool {
    &&& forall|i: int|
        0 <= i < builder.runs@.len() ==> is_named(builder, (#[trigger] builder.runs@[i])@)
    &&& forall|i: int, j: int|
        #![trigger builder.runs@[i], builder.runs@[j]]
        0 <= i < j < builder.runs@.len() ==> builder.runs@[i]@ != builder.runs@[j]@
}

/// The runs hold the given records, each run in order; together with the chunk these are
/// the records that were handed in.
pub open spec fn holds(s: StoreState, contents: Seq<Seq<RecordModel>>) -> bool {
    &&& contents.len() == s.builder.runs@.len()
    &&& forall|i: int|
        0 <= i < contents.len() ==> s.files.contains_key((#[trigger] s.builder.runs@[i])@)
            && s.files[s.builder.runs@[i]@] == result_store::file_bytes(false, contents[i])
    &&& forall|i: int| 0 <= i < contents.len() ==> models_in_order(#[trigger] contents[i])
    &&& (result_store::flat(contents) + store_codec::models(s.builder.chunk@)).to_multiset()
        == s.pushed.to_multiset()
}

/// Nothing that was handed in is lost, and nothing was added.
pub open spec fn holds_everything(s: StoreState) -> bool {
    &&& runs_are_named(s.builder)
    &&& exists|contents: Seq<Seq<RecordModel>>| #[trigger] holds(s, contents)
    &&& s.builder.next_sequence == s.pushed.len()
    &&& forall|i: int| 0 <= i < s.pushed.len() ==> (#[trigger] s.pushed[i]).sequence == i
}


// ---------------------------------------------------------------------------
// Nothing is lost
// ---------------------------------------------------------------------------

/// Reading the file of a run gives its records back.
pub proof fn lemma_run_round_trip(ms: Seq<RecordModel>)
    requires
        result_store::sizes_fit(ms),
        ms.len() <= u64::MAX,
    ensures
        run_in(result_store::file_bytes(false, ms)) == Some(ms),
{
    result_store::lemma_header_round_trip(false, ms);
    let header = result_store::header_bytes(false, ms.len());
    bytes::lemma_le(ms.len(), 8);
    assert(header.len() == 16);
    let none = Seq::<u8>::empty();
    result_store::lemma_parsed_many(header, ms, none, ms.len());
    assert(header + result_store::records_bytes(ms) + none =~= result_store::file_bytes(false, ms));
    assert(ms.take(ms.len() as int) =~= ms);
}

/// Ordering records changes their order alone.
proof fn lemma_ordered_models(records: Seq<StoredResultRecord>)
    ensures
        store_codec::models(ordering::ordered(records)).to_multiset() == store_codec::models(
            records,
        ).to_multiset(),
        models_in_order(store_codec::models(ordering::ordered(records))),
    decreases records.len(),
{
    ordering::lemma_ordered_in_order(records);
    let all = store_codec::models(ordering::ordered(records));
    assert forall|i: int, j: int|
        #![trigger all[i], all[j]]
        0 <= i < j < all.len() implies !ordering::key_before(
        store_codec::record_key(all[j]),
        store_codec::record_key(all[i]),
    ) by {
        let o = ordering::ordered(records);
        assert(!ordering::key_before(o[j].rank_key(), o[i].rank_key()));
    }
    if records.len() > 0 {
        let rest = records.drop_last();
        let x = records.last();
        lemma_ordered_models(rest);
        ordering::lemma_ordered_in_order(rest);
        let o = ordering::ordered(rest);
        ordering::lemma_place(o, x.rank_key());
        let p = ordering::place_of(o, x.rank_key());
        let ms = store_codec::models(rest);
        let om = store_codec::models(o);
        all.to_multiset_ensures();
        ms.to_multiset_ensures();
        assert(all.remove(p) =~= om);
        assert(all[p] == x@);
        assert(store_codec::models(records) =~= ms.push(x@));
        assert(all.to_multiset() =~= om.to_multiset().insert(x@));
    } else {
        assert(all =~= store_codec::models(records));
    }
}

proof fn lemma_flat_has<T>(runs: Seq<Seq<T>>, i: int, x: T)
    requires
        0 <= i < runs.len(),
        runs[i].contains(x),
    ensures
        result_store::flat(runs).contains(x),
        runs[i].len() <= result_store::flat(runs).len(),
    decreases runs.len(),
{
    let front = result_store::flat(runs.drop_last());
    let whole = result_store::flat(runs);
    if i == runs.len() - 1 {
        let k = choose|k: int| 0 <= k < runs[i].len() && runs[i][k] == x;
        assert(whole[front.len() + k] == x);
    } else {
        assert(runs.drop_last()[i] == runs[i]);
        lemma_flat_has(runs.drop_last(), i, x);
        let k = choose|k: int| 0 <= k < front.len() && front[k] == x;
        assert(whole[k] == x);
    }
}

/// What the runs hold can be read back.
proof fn lemma_contents_are_read(s: StoreState, contents: Seq<Seq<RecordModel>>, i: int)
    requires
        holds(s, contents),
        result_store::sizes_fit(s.pushed),
        s.pushed.len() <= u64::MAX,
        0 <= i < contents.len(),
    ensures
        run_in(result_store::file_bytes(false, contents[i])) == Some(contents[i]),
{
    let whole = result_store::flat(contents) + store_codec::models(s.builder.chunk@);
    whole.to_multiset_ensures();
    s.pushed.to_multiset_ensures();
    assert(whole.len() == s.pushed.len());
    assert forall|k: int| 0 <= k < contents[i].len() implies store_codec::record_size(
        #[trigger] contents[i][k],
    ) <= u32::MAX by {
        let x = contents[i][k];
        assert(contents[i].contains(x));
        lemma_flat_has(contents, i, x);
        let flat = result_store::flat(contents);
        let at = choose|at: int| 0 <= at < flat.len() && flat[at] == x;
        assert(whole[at] == x);
        assert(whole.contains(x));
        assert(s.pushed.to_multiset().count(x) > 0);
        assert(s.pushed.contains(x));
        let p = choose|p: int| 0 <= p < s.pushed.len() && s.pushed[p] == x;
        assert(store_codec::record_size(s.pushed[p]) <= u32::MAX);
    }
    if contents[i].len() > 0 {
        lemma_flat_has(contents, i, contents[i][0]);
    }
    lemma_run_round_trip(contents[i]);
}

/// A path with a number that was not given out yet is none of the runs.
proof fn lemma_new_path(builder: ResultStoreBuilder, path: Seq<char>, number: int)
    requires
        runs_are_named(builder),
        has_number(builder, path, number),
        number >= builder.next_run_index,
    ensures
        forall|i: int| 0 <= i < builder.runs@.len() ==> (#[trigger] builder.runs@[i])@ != path,
{
    assert forall|i: int| 0 <= i < builder.runs@.len() implies (#[trigger] builder.runs@[i])@
        != path by {
        assert(is_named(builder, builder.runs@[i]@));
        let k = choose|k: int|
            k < builder.next_run_index && has_number(builder, builder.runs@[i]@, k);
        lemma_numbers_part_paths(builder, builder.runs@[i]@, k, path, number);
    }
}

proof fn lemma_numbers_part_paths(
    builder: ResultStoreBuilder,
    a: Seq<char>,
    k: int,
    b: Seq<char>,
    n: int,
)
    requires
        has_number(builder, a, k),
        has_number(builder, b, n),
        k != n,
    ensures
        a != b,
{
    let d = builder.directory@;
    let g = builder.generation;
    let id = builder.id;
    lemma_run_paths_differ(d, g, id, "run"@, k as usize, "run"@, n as usize);
    lemma_run_paths_differ(d, g, id, "run"@, k as usize, "merge"@, n as usize);
    lemma_run_paths_differ(d, g, id, "merge"@, k as usize, "run"@, n as usize);
    lemma_run_paths_differ(d, g, id, "merge"@, k as usize, "merge"@, n as usize);
}

/// One more run.
proof fn lemma_run_added(
    a: StoreState,
    b: StoreState,
    run: RunOutput,
    contents: Seq<Seq<RecordModel>>,
)
    requires
        runs_are_named(a.builder),
        holds(a, contents),
        a.builder.writes(run),
        a.builder.next_run_index < usize::MAX,
        b.builder.same_names(&a.builder),
        b.builder.runs@ == a.builder.runs@.push(run.path),
        b.builder.next_run_index == a.builder.next_run_index + 1,
        b.files == a.files.insert(run.path@, run.bytes@),
    ensures
        runs_are_named(b.builder),
        ({
            let more = contents.push(
                store_codec::models(ordering::ordered(a.builder.chunk@)),
            );
            &&& more.len() == b.builder.runs@.len()
            &&& forall|i: int|
                0 <= i < more.len() ==> b.files.contains_key((#[trigger] b.builder.runs@[i])@)
                    && b.files[b.builder.runs@[i]@] == result_store::file_bytes(false, more[i])
            &&& forall|i: int| 0 <= i < more.len() ==> models_in_order(#[trigger] more[i])
            &&& result_store::flat(more).to_multiset() == (result_store::flat(contents)
                + store_codec::models(a.builder.chunk@)).to_multiset()
        }),
{
    let n = a.builder.next_run_index as int;
    let chunk = store_codec::models(ordering::ordered(a.builder.chunk@));
    let more = contents.push(chunk);
    lemma_ordered_models(a.builder.chunk@);
    assert(has_number(a.builder, run.path@, n));
    lemma_new_path(a.builder, run.path@, n);
    assert forall|i: int| 0 <= i < b.builder.runs@.len() implies is_named(
        b.builder,
        (#[trigger] b.builder.runs@[i])@,
    ) by {
        if i < a.builder.runs@.len() {
            assert(b.builder.runs@[i] == a.builder.runs@[i]);
            assert(is_named(a.builder, a.builder.runs@[i]@));
            let k = choose|k: int|
                k < a.builder.next_run_index && has_number(a.builder, a.builder.runs@[i]@, k);
            assert(has_number(b.builder, b.builder.runs@[i]@, k));
        } else {
            assert(has_number(b.builder, b.builder.runs@[i]@, n));
        }
    }
    assert forall|i: int, j: int|
        #![trigger b.builder.runs@[i], b.builder.runs@[j]]
        0 <= i < j < b.builder.runs@.len() implies b.builder.runs@[i]@ != b.builder.runs@[j]@ by {
        assert(b.builder.runs@[i] == a.builder.runs@[i]);
        if j < a.builder.runs@.len() {
            assert(b.builder.runs@[j] == a.builder.runs@[j]);
        }
    }
    assert forall|i: int| 0 <= i < more.len() implies b.files.contains_key(
        (#[trigger] b.builder.runs@[i])@,
    ) && b.files[b.builder.runs@[i]@] == result_store::file_bytes(false, more[i]) by {
        if i < contents.len() {
            assert(b.builder.runs@[i] == a.builder.runs@[i]);
            assert(more[i] == contents[i]);
        }
    }
    assert forall|i: int| 0 <= i < more.len() implies models_in_order(#[trigger] more[i]) by {
        if i < contents.len() {
            assert(more[i] == contents[i]);
        }
    }
    assert(more.drop_last() =~= contents);
    let flat = result_store::flat(contents);
    vstd::seq_lib::lemma_multiset_commutative(flat, chunk);
    vstd::seq_lib::lemma_multiset_commutative(flat, store_codec::models(a.builder.chunk@));
}


/// The end of a group of runs.
pub open spec fn group_end(g: int, count: int) -> int {
    arith::min_int(32 * (g + 1), count)
}

/// What the files hold before a group of a merge pass is merged: the runs that are not
/// merged yet, and the merges of the groups before.
proof fn lemma_files_between(
    a: StoreState,
    b: StoreState,
    groups: Seq<MergeGroup>,
    files: Seq<Files>,
    outs: Seq<Seq<RecordModel>>,
    g: int,
)
    requires
        runs_are_named(a.builder),
        steps(a, BuildStep::Merged(groups, files, outs), b),
        has_numbers_left(a, BuildStep::Merged(groups, files, outs)),
        forall|i: int|
            0 <= i < a.builder.runs@.len() ==> a.files.contains_key(
                (#[trigger] a.builder.runs@[i])@,
            ),
        0 <= g <= groups.len(),
    ensures
        forall|i: int|
            32 * g <= i < a.builder.runs@.len() ==> files[g].contains_key(
                (#[trigger] a.builder.runs@[i])@,
            ) && files[g][a.builder.runs@[i]@] == a.files[a.builder.runs@[i]@],
        forall|h: int|
            0 <= h < g ==> files[g].contains_key((#[trigger] groups[h]).output@)
                && files[g][groups[h].output@] == result_store::file_bytes(false, outs[h]),
    decreases g,
{
    let runs = a.builder.runs@;
    if g > 0 {
        let p = g - 1;
        lemma_files_between(a, b, groups, files, outs, p);
        let group = groups[p];
        let next = a.builder.next_run_index as int;
        assert(store_builder::is_group(&a.builder, group, p));
        assert(merges_group(files[p], files[p + 1], group, outs[p]));
        assert(has_number(a.builder, group.output@, next + p));
        lemma_new_path(a.builder, group.output@, next + p);
        assert forall|i: int| 32 * g <= i < runs.len() implies files[g].contains_key(
            (#[trigger] runs[i])@,
        ) && files[g][runs[i]@] == a.files[runs[i]@] by {
            assert forall|k: int| 0 <= k < group.inputs@.len() implies (#[trigger] group.inputs@[k])@
                != runs[i]@ by {
                assert(group.inputs@[k] == runs[32 * p + k]);
            }
            assert(files[p].contains_key(runs[i]@) && files[p][runs[i]@] == a.files[runs[i]@]);
        }
        assert forall|h: int| 0 <= h < g implies files[g].contains_key(
            (#[trigger] groups[h]).output@,
        ) && files[g][groups[h].output@] == result_store::file_bytes(false, outs[h]) by {
            if h < p {
                assert(store_builder::is_group(&a.builder, groups[h], h));
                assert(has_number(a.builder, groups[h].output@, next + h));
                lemma_numbers_part_paths(
                    a.builder,
                    groups[h].output@,
                    next + h,
                    group.output@,
                    next + p,
                );
                lemma_new_path(a.builder, groups[h].output@, next + h);
                assert forall|k: int| 0 <= k < group.inputs@.len() implies (
                #[trigger] group.inputs@[k])@ != groups[h].output@ by {
                    assert(group.inputs@[k] == runs[32 * p + k]);
                }
            }
        }
    }
}

/// Merging group by group keeps all records.
proof fn lemma_groups_keep_all(contents: Seq<Seq<RecordModel>>, outs: Seq<Seq<RecordModel>>, g: int)
    requires
        0 <= g <= outs.len(),
        outs.len() == store_builder::merged_count(contents.len()),
        forall|h: int|
            0 <= h < outs.len() ==> (#[trigger] outs[h]).to_multiset() == result_store::flat(
                contents.subrange(32 * h, group_end(h, contents.len() as int)),
            ).to_multiset(),
    ensures
        result_store::flat(outs.take(g)).to_multiset() == result_store::flat(
            contents.take(arith::min_int(32 * g, contents.len() as int)),
        ).to_multiset(),
    decreases g,
{
    if g == 0 {
        assert(outs.take(0) =~= Seq::<Seq<RecordModel>>::empty());
        assert(contents.take(0) =~= Seq::<Seq<RecordModel>>::empty());
    } else {
        let h = g - 1;
        let n = contents.len() as int;
        lemma_groups_keep_all(contents, outs, h);
        let front = contents.take(32 * h);
        let part = contents.subrange(32 * h, group_end(h, n));
        assert(outs.take(g).drop_last() =~= outs.take(h));
        assert(contents.take(arith::min_int(32 * g, n)) =~= front + part);
        result_store::lemma_flat_concat(front, part);
        vstd::seq_lib::lemma_multiset_commutative(
            result_store::flat(outs.take(h)),
            outs[h],
        );
        vstd::seq_lib::lemma_multiset_commutative(
            result_store::flat(front),
            result_store::flat(part),
        );
    }
}

/// A merge pass keeps all records.
proof fn lemma_pass_keeps_all(
    a: StoreState,
    b: StoreState,
    groups: Seq<MergeGroup>,
    files: Seq<Files>,
    outs: Seq<Seq<RecordModel>>,
    contents: Seq<Seq<RecordModel>>,
)
    requires
        runs_are_named(a.builder),
        holds(a, contents),
        result_store::sizes_fit(a.pushed),
        a.pushed.len() <= u64::MAX,
        steps(a, BuildStep::Merged(groups, files, outs), b),
        has_numbers_left(a, BuildStep::Merged(groups, files, outs)),
    ensures
        runs_are_named(b.builder),
        holds(b, outs),
{
    let runs = a.builder.runs@;
    let n = runs.len() as int;
    let next = a.builder.next_run_index as int;
    assert forall|g: int| 0 <= g < outs.len() implies (#[trigger] outs[g]).to_multiset()
        == result_store::flat(contents.subrange(32 * g, group_end(g, n))).to_multiset()
        && models_in_order(outs[g]) by {
        let group = groups[g];
        assert(store_builder::is_group(&a.builder, group, g));
        assert(merges_group(files[g], files[g + 1], group, outs[g]));
        lemma_files_between(a, b, groups, files, outs, g);
        let part = contents.subrange(32 * g, group_end(g, n));
        let read = runs_in(files[g], group.inputs@);
        assert forall|k: int| 0 <= k < part.len() implies read[k] == part[k] by {
            assert(group.inputs@[k] == runs[32 * g + k]);
            assert(files[g][runs[32 * g + k]@] == a.files[runs[32 * g + k]@]);
            lemma_contents_are_read(a, contents, 32 * g + k);
        }
        assert(read =~= part);
    }
    lemma_groups_keep_all(contents, outs, outs.len() as int);
    assert(outs.take(outs.len() as int) =~= outs);
    assert(contents.take(n) =~= contents);
    lemma_files_between(a, b, groups, files, outs, groups.len() as int);
    assert forall|i: int| 0 <= i < outs.len() implies b.files.contains_key(
        (#[trigger] b.builder.runs@[i])@,
    ) && b.files[b.builder.runs@[i]@] == result_store::file_bytes(false, outs[i]) by {
        assert(b.builder.runs@[i]@ == groups[i].output@);
    }
    assert forall|i: int| 0 <= i < b.builder.runs@.len() implies is_named(
        b.builder,
        (#[trigger] b.builder.runs@[i])@,
    ) by {
        assert(b.builder.runs@[i]@ == groups[i].output@);
        assert(store_builder::is_group(&a.builder, groups[i], i));
        assert(has_number(b.builder, groups[i].output@, next + i));
    }
    assert forall|i: int, j: int|
        #![trigger b.builder.runs@[i], b.builder.runs@[j]]
        0 <= i < j < b.builder.runs@.len() implies b.builder.runs@[i]@ != b.builder.runs@[j]@ by {
        assert(store_builder::is_group(&a.builder, groups[i], i));
        assert(store_builder::is_group(&a.builder, groups[j], j));
        assert(has_number(a.builder, groups[i].output@, next + i));
        assert(has_number(a.builder, groups[j].output@, next + j));
        lemma_numbers_part_paths(
            a.builder,
            groups[i].output@,
            next + i,
            groups[j].output@,
            next + j,
        );
    }
    let chunk = store_codec::models(a.builder.chunk@);
    vstd::seq_lib::lemma_multiset_commutative(result_store::flat(outs), chunk);
    vstd::seq_lib::lemma_multiset_commutative(result_store::flat(contents), chunk);
}

/// A step keeps everything.
pub proof fn lemma_step_keeps_everything(a: StoreState, step: BuildStep, b: StoreState)
    requires
        holds_everything(a),
        steps(a, step, b),
        has_numbers_left(a, step),
        result_store::sizes_fit(a.pushed),
        b.pushed.len() <= u64::MAX,
    ensures
        holds_everything(b),
{
    let contents = choose|contents: Seq<Seq<RecordModel>>| holds(a, contents);
    let flat = result_store::flat(contents);
    let chunk = store_codec::models(a.builder.chunk@);
    a.pushed.to_multiset_ensures();
    (flat + chunk).to_multiset_ensures();
    match step {
        BuildStep::Stored(record) => {
            assert(flat + store_codec::models(b.builder.chunk@) =~= (flat + chunk).push(record));
            assert forall|i: int| 0 <= i < b.builder.runs@.len() implies is_named(
                b.builder,
                (#[trigger] b.builder.runs@[i])@,
            ) by {
                assert(is_named(a.builder, a.builder.runs@[i]@));
                let k = choose|k: int|
                    k < a.builder.next_run_index && has_number(a.builder, a.builder.runs@[i]@, k);
                assert(has_number(b.builder, b.builder.runs@[i]@, k));
            }
            assert(holds(b, contents));
        },
        BuildStep::Flushed(record, run, waiting, between) => {
            lemma_run_added(a, b, run, contents);
            let more = contents.push(store_codec::models(ordering::ordered(a.builder.chunk@)));
            let last = store_codec::models(b.builder.chunk@);
            let flat_more = result_store::flat(more);
            assert(last =~= seq![record]);
            flat_more.to_multiset_ensures();
            assert(flat_more + last =~= flat_more.push(record));
            assert(holds(b, more));
        },
        BuildStep::Closed(run) => {
            lemma_run_added(a, b, run, contents);
            let more = contents.push(store_codec::models(ordering::ordered(a.builder.chunk@)));
            assert(result_store::flat(more) + store_codec::models(b.builder.chunk@)
                =~= result_store::flat(more));
            assert(holds(b, more));
        },
        BuildStep::Merged(groups, files, outs) => {
            lemma_pass_keeps_all(a, b, groups, files, outs, contents);
            assert(holds(b, outs));
        },
    }
}

/// The building of a store: it begins with nothing, and goes on step by step.
pub open spec fn is_building(states: Seq<StoreState>, done: Seq<BuildStep>) -> bool {
    &&& states.len() == done.len() + 1
    &&& states[0].builder.chunk@.len() == 0
    &&& states[0].builder.runs@.len() == 0
    &&& states[0].builder.next_sequence == 0
    &&& states[0].pushed.len() == 0
    &&& forall|i: int|
        0 <= i < done.len() ==> steps(states[i], #[trigger] done[i], states[i + 1])
            && has_numbers_left(states[i], done[i])
}

/// Whatever the steps, everything that was handed in is in the runs and in the chunk, and
/// nothing else. Sizes that need more than 32 bits and more records or runs than there are
/// numbers are left out.
pub proof fn lemma_building_keeps_everything(states: Seq<StoreState>, done: Seq<BuildStep>)
    requires
        is_building(states, done),
        result_store::sizes_fit(states.last().pushed),
        states.last().pushed.len() <= u64::MAX,
    ensures
        holds_everything(states.last()),
    decreases done.len(),
{
    if done.len() == 0 {
        let s = states[0];
        let contents = Seq::<Seq<RecordModel>>::empty();
        assert(result_store::flat(contents) + store_codec::models(s.builder.chunk@) =~= s.pushed);
        assert(holds(s, contents));
    } else {
        let n = done.len() - 1;
        let before = states.drop_last();
        let a = states[n];
        let b = states[n + 1];
        assert(steps(states[n], done[n], states[n + 1]));
        assert(before.last() == a);
        assert(result_store::sizes_fit(a.pushed) && a.pushed.len() <= u64::MAX) by {
            assert forall|i: int| 0 <= i < a.pushed.len() implies store_codec::record_size(
                #[trigger] a.pushed[i],
            ) <= u32::MAX by {
                assert(a.pushed[i] == b.pushed[i]);
            }
        }
        assert(is_building(before, done.drop_last())) by {
            assert forall|i: int| 0 <= i < done.drop_last().len() implies steps(
                before[i],
                #[trigger] done.drop_last()[i],
                before[i + 1],
            ) && has_numbers_left(before[i], done.drop_last()[i]) by {
                assert(steps(states[i], done[i], states[i + 1]));
            }
        }
        lemma_building_keeps_everything(before, done.drop_last());
        lemma_step_keeps_everything(a, done[n], b);
    }
}


/// Every record comes before those behind it.
pub open spec fn strictly_in_order(ms: Seq<RecordModel>) -> bool {
    forall|i: int, j: int|
        #![trigger ms[i], ms[j]]
        0 <= i < j < ms.len() ==> ordering::key_before(
            store_codec::record_key(ms[i]),
            store_codec::record_key(ms[j]),
        )
}

/// Records that were handed in one after the other, put in order, are strictly in order:
/// the one that came first is in front of its equals.
proof fn lemma_arrivals_part_equals(pushed: Seq<RecordModel>, out: Seq<RecordModel>)
    requires
        forall|i: int| 0 <= i < pushed.len() ==> (#[trigger] pushed[i]).sequence == i,
        models_in_order(out),
        out.to_multiset() == pushed.to_multiset(),
    ensures
        strictly_in_order(out),
{
    pushed.to_multiset_ensures();
    out.to_multiset_ensures();
    assert(pushed.no_duplicates()) by {
        assert forall|i: int, j: int| 0 <= i < pushed.len() && 0 <= j < pushed.len() && i
            != j implies pushed[i] != pushed[j] by {
            assert(pushed[i].sequence == i && pushed[j].sequence == j);
        }
    }
    pushed.lemma_multiset_has_no_duplicates();
    out.lemma_multiset_has_no_duplicates_conv();
    assert forall|i: int, j: int|
        #![trigger out[i], out[j]]
        0 <= i < j < out.len() implies ordering::key_before(
        store_codec::record_key(out[i]),
        store_codec::record_key(out[j]),
    ) by {
        assert(out.contains(out[i]) && out.contains(out[j]));
        assert(pushed.to_multiset().count(out[i]) > 0);
        assert(pushed.to_multiset().count(out[j]) > 0);
        let a = choose|a: int| 0 <= a < pushed.len() && pushed[a] == out[i];
        let b = choose|b: int| 0 <= b < pushed.len() && pushed[b] == out[j];
        assert(pushed[a].sequence == a && pushed[b].sequence == b);
        assert(out[i] != out[j]);
        ordering::lemma_key_total(
            store_codec::record_key(out[i]),
            store_codec::record_key(out[j]),
        );
    }
}

/// What is known of a store when the last merge is written.
pub open spec fn is_finished(
    s: StoreState,
    out: Seq<RecordModel>,
    progress: StoreProgress,
    manifest: ResultStoreManifest,
) -> bool {
    &&& s.builder.chunk@.len() == 0
    &&& is_merge(out, runs_in(s.files, s.builder.runs@))
    &&& progress.final_store
    &&& progress.after(out)
    &&& manifest.generation == s.builder.generation
    &&& manifest.count == progress.count
    &&& manifest.sparse_offsets@ == progress.sparse_offsets@
}

/// A finished store holds the records that were handed in, no other, in order; those that
/// are equal in kind, score and texts in the order in which they were handed in. The
/// manifest has their number, and the place of every two hundred and fifty-sixth.
pub proof fn lemma_finished_store_holds_what_was_pushed(
    states: Seq<StoreState>,
    done: Seq<BuildStep>,
    out: Seq<RecordModel>,
    progress: StoreProgress,
    manifest: ResultStoreManifest,
)
    requires
        is_building(states, done),
        result_store::sizes_fit(states.last().pushed),
        states.last().pushed.len() <= u64::MAX,
        is_finished(states.last(), out, progress, manifest),
    ensures
        can_read(states.last().files, states.last().builder.runs@),
        out.to_multiset() == states.last().pushed.to_multiset(),
        out.len() == states.last().pushed.len(),
        strictly_in_order(out),
        result_store::sizes_fit(out),
        manifest.generation == states[0].builder.generation,
        manifest.count == states.last().pushed.len(),
        result_store::offset_values(manifest.sparse_offsets@) == result_store::known_offsets(out),
        manifest.sparse_offsets@.len() == (states.last().pushed.len() + 255) / 256,
{
    lemma_building_keeps_everything(states, done);
    lemma_names_stay(states, done);
    let s = states.last();
    let contents = choose|contents: Seq<Seq<RecordModel>>| holds(s, contents);
    assert forall|i: int| 0 <= i < s.builder.runs@.len() implies s.files.contains_key(
        (#[trigger] s.builder.runs@[i])@,
    ) && run_in(s.files[s.builder.runs@[i]@]) == Some(contents[i]) by {
        lemma_contents_are_read(s, contents, i);
    }
    assert(runs_in(s.files, s.builder.runs@) =~= contents);
    assert(result_store::flat(contents) + store_codec::models(s.builder.chunk@)
        =~= result_store::flat(contents));
    lemma_arrivals_part_equals(s.pushed, out);
    s.pushed.to_multiset_ensures();
    out.to_multiset_ensures();
    assert forall|i: int| 0 <= i < out.len() implies store_codec::record_size(#[trigger] out[i])
        <= u32::MAX by {
        assert(out.contains(out[i]));
        assert(s.pushed.to_multiset().count(out[i]) > 0);
        let p = choose|p: int| 0 <= p < s.pushed.len() && s.pushed[p] == out[i];
        assert(store_codec::record_size(s.pushed[p]) <= u32::MAX);
    }
    assert(result_store::offset_values(progress.sparse_offsets@).len()
        == progress.sparse_offsets@.len());
}

proof fn lemma_names_stay(states: Seq<StoreState>, done: Seq<BuildStep>)
    requires
        is_building(states, done),
    ensures
        states.last().builder.same_names(&states[0].builder),
    decreases done.len(),
{
    if done.len() > 0 {
        let n = done.len() - 1;
        let before = states.drop_last();
        assert(steps(states[n], done[n], states[n + 1]));
        assert(before.last() == states[n]);
        assert(is_building(before, done.drop_last())) by {
            assert forall|i: int| 0 <= i < done.drop_last().len() implies steps(
                before[i],
                #[trigger] done.drop_last()[i],
                before[i + 1],
            ) && has_numbers_left(before[i], done.drop_last()[i]) by {
                assert(steps(states[i], done[i], states[i + 1]));
            }
        }
        lemma_names_stay(before, done.drop_last());
    }
}


} // verus!
