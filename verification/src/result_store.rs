//! Results on disk: sorted runs, their merge, and pages of the merged store.
//!
//! What is written and read is made and understood here; the files themselves
//! are opened elsewhere.

use crate::arith;
use crate::bytes;
use crate::ordering;
use crate::ordering::Ranked;
use crate::store_codec;
use crate::store_codec::{RecordModel, StoreError, StoredResultRecord};
use vstd::prelude::*;

verus! {

/// The bytes that a chunk of records may take in memory.
pub const RESULT_STORE_CHUNK_BYTES: usize = 8_388_608;

/// The number of runs merged at a time.
pub const RESULT_STORE_MERGE_FAN_IN: usize = 32;

/// The number of records from one known offset to the next.
pub const RESULT_STORE_SPARSE_STEP: usize = 256;

/// The number of results read at a time.
pub const RESULT_STORE_PAGE_SIZE: usize = 128;

/// The number of pages kept.
pub const RESULT_STORE_PAGE_CACHE_LIMIT: usize = 3;

/// The number of results that may wait for the writer.
pub const RESULT_STORE_CHANNEL_CAPACITY: usize = 256;

/// The number of bytes in front of the first record.
pub const HEADER_BYTES: u64 = 16;

// ---------------------------------------------------------------------------
// Files
// ---------------------------------------------------------------------------

/// What a file of a kind begins with.
pub open spec fn magic_of(final_store: bool) -> Seq<u8> {
    if final_store {
        seq![0x46u8, 0x4c, 0x53, 0x54, 0x52, 0x30, 0x30, 0x32]
    } else {
        seq![0x46u8, 0x4c, 0x52, 0x55, 0x4e, 0x30, 0x30, 0x32]
    }
}

/// The bytes of records in a row.
pub open spec fn records_bytes(ms: Seq<RecordModel>) -> Seq<u8>
    decreases ms.len(),
{
    if ms.len() == 0 {
        Seq::empty()
    } else {
        records_bytes(ms.drop_last()) + store_codec::record_bytes(ms.last())
    }
}

/// The bytes that a file of `count` records begins with.
pub open spec fn header_bytes(final_store: bool, count: nat) -> Seq<u8> {
    magic_of(final_store) + bytes::le(count, 8)
}

/// The bytes of a file.
pub open spec fn file_bytes(final_store: bool, ms: Seq<RecordModel>) -> Seq<u8> {
    header_bytes(final_store, ms.len()) + records_bytes(ms)
}

/// Every record can be noted with its size in 32 bits.
pub open spec fn sizes_fit(ms: Seq<RecordModel>) -> bool {
    forall|i: int| 0 <= i < ms.len() ==> store_codec::record_size(#[trigger] ms[i]) <= u32::MAX
}

/// The count in the header of a file, or why it has none.
pub open spec fn parsed_header(b: Seq<u8>, final_store: bool) -> Result<nat, StoreError> {
    if b.len() < 8 {
        Err(StoreError::UnexpectedEnd)
    } else if b.subrange(0, 8) != magic_of(final_store) {
        Err(
            if final_store {
                StoreError::InvalidStore
            } else {
                StoreError::InvalidRun
            },
        )
    } else {
        match bytes::number_at(b, 8, 8) {
            Some(n) => Ok(n),
            None => Err(StoreError::UnexpectedEnd),
        }
    }
}

/// Appends what a file begins with.
pub fn append_header(out: &mut Vec<u8>, final_store: bool, count: u64)
    ensures
        final(out)@ == old(out)@ + header_bytes(final_store, count as nat),
{
    let ghost before = out@;
    out.push(0x46);
    out.push(0x4c);
    if final_store {
        out.push(0x53);
        out.push(0x54);
        out.push(0x52);
    } else {
        out.push(0x52);
        out.push(0x55);
        out.push(0x4e);
    }
    out.push(0x30);
    out.push(0x30);
    out.push(0x32);
    proof {
        assert(out@ =~= before + magic_of(final_store));
    }
    bytes::append_le(out, count, 8);
    proof {
        assert(out@ =~= before + header_bytes(final_store, count as nat));
    }
}

fn begins_with_magic(b: &[u8], final_store: bool) -> (r: bool)
    requires
        b.len() >= 8,
    ensures
        r == (b@.subrange(0, 8) == magic_of(final_store)),
{
    let r = b[0] == 0x46 && b[1] == 0x4c && b[5] == 0x30 && b[6] == 0x30 && b[7] == 0x32 && (if final_store {
        b[2] == 0x53 && b[3] == 0x54 && b[4] == 0x52
    } else {
        b[2] == 0x52 && b[3] == 0x55 && b[4] == 0x4e
    });
    proof {
        let s = b@.subrange(0, 8);
        let m = magic_of(final_store);
        if r {
            assert(s =~= m);
        } else if s == m {
            assert(b@[0] == s[0] && b@[1] == s[1] && b@[2] == s[2] && b@[3] == s[3]);
            assert(b@[4] == s[4] && b@[5] == s[5] && b@[6] == s[6] && b@[7] == s[7]);
        }
    }
    r
}

/// Reads the count in the header of a file.
pub fn read_header(b: &[u8], final_store: bool) -> (r: Result<u64, StoreError>)
    ensures
        match parsed_header(b@, final_store) {
            Ok(n) => r matches Ok(found) && found == n,
            Err(e) => r matches Err(found) && found == e,
        },
{
    if b.len() < 8 {
        return Err(StoreError::UnexpectedEnd);
    }
    if !begins_with_magic(b, final_store) {
        return Err(
            if final_store {
                StoreError::InvalidStore
            } else {
                StoreError::InvalidRun
            },
        );
    }
    let mut at: usize = 8;
    match bytes::read_u64(b, &mut at) {
        Ok(n) => Ok(n),
        Err(_) => Err(StoreError::UnexpectedEnd),
    }
}

/// Reading the header of a written file gives its count.
pub proof fn lemma_header_round_trip(final_store: bool, ms: Seq<RecordModel>)
    requires
        ms.len() <= u64::MAX,
    ensures
        parsed_header(file_bytes(final_store, ms), final_store) == Ok::<nat, StoreError>(ms.len()),
{
    let m = magic_of(final_store);
    bytes::lemma_span();
    bytes::lemma_number_round_trip(ms.len(), 8, m, records_bytes(ms));
    let whole = file_bytes(final_store, ms);
    assert(whole =~= m + bytes::le(ms.len(), 8) + records_bytes(ms));
    assert(whole.subrange(0, 8) =~= m);
}

/// The file of a run of records.
pub fn write_run(records: &[StoredResultRecord]) -> (r: Vec<u8>)
    ensures
        r@ == file_bytes(false, store_codec::models(records@)),
{
    let mut out: Vec<u8> = Vec::new();
    append_header(&mut out, false, records.len() as u64);
    let ghost head = out@;
    let ghost ms = store_codec::models(records@);
    let mut i: usize = 0;
    proof {
        assert(head =~= header_bytes(false, records@.len()));
        assert(head + records_bytes(ms.take(0)) =~= head);
    }
    while i < records.len()
        invariant
            i <= records.len(),
            ms == store_codec::models(records@),
            out@ == head + records_bytes(ms.take(i as int)),
        decreases records.len() - i,
    {
        store_codec::write_record(&mut out, &records[i]);
        proof {
            assert(ms.take(i + 1).drop_last() =~= ms.take(i as int));
            assert(ms.take(i + 1).last() == records@[i as int]@);
            assert(out@ =~= head + records_bytes(ms.take(i + 1)));
        }
        i += 1;
    }
    proof {
        assert(ms.take(records@.len() as int) =~= ms);
    }
    out
}

// ---------------------------------------------------------------------------
// Reading records in a row
// ---------------------------------------------------------------------------

/// The first `n` records from a place on, and where they end.
pub open spec fn parsed_many(b: Seq<u8>, at: int, n: nat) -> Result<
    (Seq<RecordModel>, int),
    StoreError,
>
    decreases n,
{
    if n == 0 {
        Ok((Seq::empty(), at))
    } else {
        match parsed_many(b, at, (n - 1) as nat) {
            Err(e) => Err(e),
            Ok((ms, end)) => match store_codec::parsed_record(b, end) {
                Err(e) => Err(e),
                Ok((m, next)) => Ok((ms.push(m), next)),
            },
        }
    }
}

proof fn lemma_parsed_many_err(b: Seq<u8>, at: int, n: nat, k: nat)
    requires
        k <= n,
        parsed_many(b, at, k) is Err,
    ensures
        parsed_many(b, at, n) == parsed_many(b, at, k),
    decreases n,
{
    if k < n {
        lemma_parsed_many_err(b, at, (n - 1) as nat, k);
    }
}

/// The bytes of records are those of the first ones and those of the rest.
pub proof fn lemma_records_bytes_prefix(ms: Seq<RecordModel>, k: int)
    requires
        0 <= k <= ms.len(),
    ensures
        records_bytes(ms) == records_bytes(ms.take(k)) + records_bytes(ms.skip(k)),
    decreases ms.len(),
{
    if k == ms.len() {
        assert(ms.take(k) =~= ms);
        assert(ms.skip(k) =~= Seq::<RecordModel>::empty());
        assert(records_bytes(ms) =~= records_bytes(ms.take(k)) + records_bytes(ms.skip(k)));
    } else {
        let rest = ms.drop_last();
        lemma_records_bytes_prefix(rest, k);
        assert(rest.take(k) =~= ms.take(k));
        assert(ms.skip(k).drop_last() =~= rest.skip(k));
        assert(ms.skip(k).last() == ms.last());
        assert(records_bytes(ms) =~= records_bytes(ms.take(k)) + records_bytes(ms.skip(k)));
    }
}

/// Reading written records gives them back, wherever they stand.
pub proof fn lemma_parsed_many(before: Seq<u8>, ms: Seq<RecordModel>, after: Seq<u8>, n: nat)
    requires
        sizes_fit(ms),
        n <= ms.len(),
    ensures
        parsed_many(before + records_bytes(ms) + after, before.len() as int, n) == Ok::<
            (Seq<RecordModel>, int),
            StoreError,
        >((ms.take(n as int), before.len() + records_bytes(ms.take(n as int)).len() as int)),
    decreases n,
{
    let whole = before + records_bytes(ms) + after;
    if n == 0 {
        assert(ms.take(0) =~= Seq::<RecordModel>::empty());
    } else {
        let k = n - 1;
        lemma_parsed_many(before, ms, after, k as nat);
        let done = records_bytes(ms.take(k));
        let m = ms[k];
        lemma_records_bytes_prefix(ms, k);
        lemma_records_bytes_prefix(ms.skip(k), 1);
        let rest = records_bytes(ms.skip(k).skip(1));
        assert(ms.skip(k).take(1) =~= seq![m]);
        assert(seq![m].drop_last() =~= Seq::<RecordModel>::empty());
        assert(records_bytes(seq![m].drop_last()) =~= Seq::<u8>::empty());
        assert(records_bytes(seq![m]) =~= store_codec::record_bytes(m));
        store_codec::lemma_record_round_trip(m, before + done, rest + after);
        assert(whole =~= (before + done) + store_codec::record_bytes(m) + (rest + after));
        assert(ms.take(n as int).drop_last() =~= ms.take(k));
        assert(ms.take(n as int) =~= ms.take(k).push(m));
        assert(records_bytes(ms.take(n as int)).len() == done.len()
            + store_codec::record_bytes(m).len());
    }
}

/// Reads records in a row: `skip` of them are passed over and the next `take`
/// kept.
pub fn read_records(b: &[u8], at: usize, skip: usize, take: usize) -> (r: Result<
    Vec<StoredResultRecord>,
    StoreError,
>)
    requires
        skip + take <= usize::MAX,
    ensures
        match parsed_many(b@, at as int, (skip + take) as nat) {
            Ok((ms, _)) => r matches Ok(found) && store_codec::models(found@) == ms.skip(
                skip as int,
            ),
            Err(e) => r matches Err(found) && found == e,
        },
{
    let total: usize = skip + take;
    let mut place: usize = at;
    let mut out: Vec<StoredResultRecord> = Vec::new();
    let mut i: usize = 0;
    let ghost mut seen: Seq<RecordModel> = Seq::empty();
    proof {
        assert(store_codec::models(out@) =~= Seq::<RecordModel>::empty());
    }
    while i < total
        invariant
            i <= total,
            total == skip + take,
            parsed_many(b@, at as int, i as nat) == Ok::<(Seq<RecordModel>, int), StoreError>(
                (seen, place as int),
            ),
            seen.len() == i,
            i <= skip ==> out@.len() == 0,
            i > skip ==> store_codec::models(out@) == seen.skip(skip as int),
        decreases total - i,
    {
        let ghost before = place;
        match store_codec::read_record(b, &mut place) {
            Ok(record) => {
                let ghost m = record@;
                let ghost old_out = out@;
                let ghost old_seen = seen;
                proof {
                    seen = seen.push(m);
                }
                if i >= skip {
                    out.push(record);
                    proof {
                        assert(store_codec::models(out@) =~= store_codec::models(old_out).push(m));
                        assert(seen.skip(skip as int) =~= old_seen.skip(skip as int).push(m));
                        if i == skip {
                            assert(old_seen.skip(skip as int) =~= Seq::<RecordModel>::empty());
                            assert(store_codec::models(old_out) =~= Seq::<RecordModel>::empty());
                        }
                    }
                }
            },
            Err(e) => {
                proof {
                    lemma_parsed_many_err(b@, at as int, total as nat, (i + 1) as nat);
                }
                return Err(e);
            },
        }
        i += 1;
    }
    proof {
        if total == skip {
            assert(seen.skip(skip as int) =~= store_codec::models(out@));
        }
    }
    Ok(out)
}

// ---------------------------------------------------------------------------
// Offsets
// ---------------------------------------------------------------------------

/// The place of a record in a file.
pub open spec fn offset_of(ms: Seq<RecordModel>, i: int) -> nat {
    16 + records_bytes(ms.take(i)).len()
}

/// The known offsets of a store: those of every two hundred and fifty-sixth
/// record from the first on.
pub open spec fn known_offsets(ms: Seq<RecordModel>) -> Seq<nat> {
    Seq::new(((ms.len() + 255) / 256) as nat, |k: int| offset_of(ms, 256 * k))
}

/// The offsets as numbers.
pub open spec fn offset_values(v: Seq<u64>) -> Seq<nat> {
    Seq::new(v.len(), |k: int| v[k] as nat)
}

/// The store that is being written: how many records it has, where the next one
/// begins, and the known offsets.
#[derive(Debug, PartialEq, Eq)]
pub struct StoreProgress {
    pub final_store: bool,
    pub count: u64,
    pub position: u64,
    pub sparse_offsets: Vec<u64>,
}

impl StoreProgress {
    /// The progress after the given records.
    pub open spec fn after(&self, ms: Seq<RecordModel>) -> bool {
        &&& self.count == ms.len()
        &&& self.position == 16 + records_bytes(ms).len()
        &&& offset_values(self.sparse_offsets@) == (if self.final_store {
            known_offsets(ms)
        } else {
            Seq::empty()
        })
    }

    /// Nothing written but the header.
    pub fn start(final_store: bool) -> (r: StoreProgress)
        ensures
            r.final_store == final_store,
            r.after(Seq::empty()),
    {
        let sparse_offsets: Vec<u64> = Vec::new();
        proof {
            assert(offset_values(sparse_offsets@) =~= Seq::<nat>::empty());
            assert(known_offsets(Seq::<RecordModel>::empty()) =~= Seq::<nat>::empty());
        }
        StoreProgress { final_store, count: 0, position: HEADER_BYTES, sparse_offsets }
    }

    /// The bytes of one more record; the progress moves on.
    pub fn append(&mut self, record: &StoredResultRecord) -> (r: Vec<u8>)
        ensures
            r@ == store_codec::record_bytes(record@),
            final(self).final_store == old(self).final_store,
            final(self).count == arith::min_int(old(self).count + 1, u64::MAX as int),
            final(self).position == arith::min_int(
                old(self).position + r@.len(),
                u64::MAX as int,
            ),
            final(self).sparse_offsets@ == (if old(self).final_store && old(self).count % 256 == 0 {
                old(self).sparse_offsets@.push(old(self).position)
            } else {
                old(self).sparse_offsets@
            }),
            old(self).count < u64::MAX && old(self).position + r@.len() <= u64::MAX ==> forall|
                ms: Seq<RecordModel>,
            | #[trigger]
                old(self).after(ms) ==> final(self).after(ms.push(record@)),
    {
        let mut out: Vec<u8> = Vec::new();
        store_codec::write_record(&mut out, record);
        proof {
            assert(out@ =~= store_codec::record_bytes(record@));
        }
        let ghost before = self.sparse_offsets@;
        let ghost start = self.position;
        if self.final_store && self.count % 256 == 0 {
            self.sparse_offsets.push(self.position);
        }
        self.position = self.position.saturating_add(out.len() as u64);
        self.count = self.count.saturating_add(1);
        proof {
            assert forall|ms: Seq<RecordModel>| #[trigger] old(self).after(ms) && old(self).count
                < u64::MAX && old(self).position + out@.len() <= u64::MAX implies self.after(
                ms.push(record@),
            ) by {
                let longer = ms.push(record@);
                assert(longer.drop_last() =~= ms);
                assert(longer.take(ms.len() as int) =~= ms);
                assert(records_bytes(longer).len() == records_bytes(ms).len() + out@.len());
                if self.final_store {
                    lemma_known_offsets_push(ms, record@);
                    if ms.len() % 256 == 0 {
                        assert(offset_values(self.sparse_offsets@) =~= offset_values(before).push(
                            start as nat,
                        ));
                    } else {
                        assert(self.sparse_offsets@ == before);
                    }
                }
            }
        }
        out
    }
}

proof fn lemma_known_offsets_push(ms: Seq<RecordModel>, m: RecordModel)
    ensures
        ms.len() % 256 == 0 ==> known_offsets(ms.push(m)) == known_offsets(ms).push(
            offset_of(ms.push(m), ms.len() as int),
        ),
        ms.len() % 256 != 0 ==> known_offsets(ms.push(m)) == known_offsets(ms),
{
    let longer = ms.push(m);
    let a = known_offsets(ms);
    let b = known_offsets(longer);
    assert forall|k: int| 0 <= k < a.len() implies a[k] == b[k] by {
        assert(longer.take(256 * k) =~= ms.take(256 * k));
    }
    if ms.len() % 256 == 0 {
        assert(b.len() == a.len() + 1);
        assert(256 * a.len() == ms.len());
        assert(b =~= a.push(offset_of(longer, ms.len() as int)));
    } else {
        assert(b =~= a);
    }
}

// ---------------------------------------------------------------------------
// Merging runs
// ---------------------------------------------------------------------------

/// The next record of each of several runs.
#[derive(Debug, PartialEq, Eq)]
pub struct RunMerger {
    pub heads: Vec<Option<StoredResultRecord>>,
}

/// The record at place `i` leads: none comes before it, and none equal to it
/// stands at an earlier place.
pub open spec fn leads(heads: Seq<Option<StoredResultRecord>>, i: int) -> bool {
    &&& 0 <= i < heads.len()
    &&& heads[i] is Some
    &&& forall|j: int|
        0 <= j < heads.len() && (#[trigger] heads[j]) is Some ==> !ordering::key_before(
            heads[j]->0.rank_key(),
            heads[i]->0.rank_key(),
        )
    &&& forall|j: int|
        0 <= j < i && (#[trigger] heads[j]) is Some ==> ordering::key_before(
            heads[i]->0.rank_key(),
            heads[j]->0.rank_key(),
        )
}

impl RunMerger {
    /// The place of the leading record.
    fn leader(&self) -> (r: Option<usize>)
        ensures
            match r {
                Some(i) => leads(self.heads@, i as int),
                None => forall|j: int| 0 <= j < self.heads@.len() ==> (#[trigger] self.heads@[j])
                    is None,
            },
    {
        let mut best: Option<usize> = None;
        let mut i: usize = 0;
        while i < self.heads.len()
            invariant
                i <= self.heads.len(),
                match best {
                    Some(b) => b < i && leads(self.heads@.take(i as int), b as int),
                    None => forall|j: int| 0 <= j < i ==> (#[trigger] self.heads@[j]) is None,
                },
            decreases self.heads.len() - i,
        {
            let ghost before = self.heads@.take(i as int);
            let ghost after = self.heads@.take(i + 1);
            proof {
                assert(forall|j: int| 0 <= j < i ==> before[j] == after[j]);
                assert(after[i as int] == self.heads@[i as int]);
            }
            match (&self.heads[i], best) {
                (Some(record), Some(b)) => {
                    match &self.heads[b] {
                        Some(current) => {
                            if record.outranks(current) {
                                proof {
                                    assert forall|j: int|
                                        0 <= j < after.len() && (#[trigger] after[j])
                                            is Some implies !ordering::key_before(
                                        after[j]->0.rank_key(),
                                        record.rank_key(),
                                    ) by {
                                        if j < i {
                                            assert(before[j] is Some);
                                            ordering::lemma_key_total(
                                                record.rank_key(),
                                                after[j]->0.rank_key(),
                                            );
                                            if ordering::key_before(
                                                after[j]->0.rank_key(),
                                                record.rank_key(),
                                            ) {
                                                ordering::lemma_key_transitive(
                                                    after[j]->0.rank_key(),
                                                    record.rank_key(),
                                                    current.rank_key(),
                                                );
                                            }
                                        } else {
                                            ordering::lemma_key_total(
                                                record.rank_key(),
                                                record.rank_key(),
                                            );
                                        }
                                    }
                                    assert forall|j: int|
                                        0 <= j < i && (#[trigger] after[j])
                                            is Some implies ordering::key_before(
                                        record.rank_key(),
                                        after[j]->0.rank_key(),
                                    ) by {
                                        assert(before[j] is Some);
                                        ordering::lemma_key_total(
                                            current.rank_key(),
                                            after[j]->0.rank_key(),
                                        );
                                        if current.rank_key() != after[j]->0.rank_key() {
                                            ordering::lemma_key_transitive(
                                                record.rank_key(),
                                                current.rank_key(),
                                                after[j]->0.rank_key(),
                                            );
                                        }
                                    }
                                }
                                best = Some(i);
                            } else {
                                proof {
                                    assert forall|j: int|
                                        0 <= j < after.len() && (#[trigger] after[j])
                                            is Some implies !ordering::key_before(
                                        after[j]->0.rank_key(),
                                        current.rank_key(),
                                    ) by {
                                        if j < i {
                                            assert(before[j] is Some);
                                        }
                                    }
                                    assert forall|j: int|
                                        0 <= j < b && (#[trigger] after[j])
                                            is Some implies ordering::key_before(
                                        current.rank_key(),
                                        after[j]->0.rank_key(),
                                    ) by {
                                        assert(before[j] is Some);
                                    }
                                }
                            }
                        },
                        None => {},
                    }
                },
                (Some(record), None) => {
                    proof {
                        ordering::lemma_key_total(record.rank_key(), record.rank_key());
                    }
                    best = Some(i);
                },
                (None, _) => {
                    proof {
                        if let Some(b) = best {
                            assert forall|j: int|
                                0 <= j < after.len() && (#[trigger] after[j])
                                    is Some implies !ordering::key_before(
                                after[j]->0.rank_key(),
                                after[b as int]->0.rank_key(),
                            ) by {
                                assert(before[j] is Some);
                            }
                            assert forall|j: int|
                                0 <= j < b && (#[trigger] after[j]) is Some implies ordering::key_before(
                                after[b as int]->0.rank_key(),
                                after[j]->0.rank_key(),
                            ) by {
                                assert(before[j] is Some);
                            }
                        }
                    }
                },
            }
            i += 1;
        }
        proof {
            assert(self.heads@.take(self.heads@.len() as int) =~= self.heads@);
        }
        best
    }

    /// Takes the leading record away and says which run it came from.
    pub fn take_next(&mut self) -> (r: Option<(usize, StoredResultRecord)>)
        ensures
            match r {
                Some((i, record)) => {
                    &&& leads(old(self).heads@, i as int)
                    &&& old(self).heads@[i as int] == Some(record)
                    &&& final(self).heads@ == old(self).heads@.update(i as int, None)
                },
                None => {
                    &&& forall|j: int|
                        0 <= j < old(self).heads@.len() ==> (#[trigger] old(self).heads@[j]) is None
                    &&& final(self).heads@ == old(self).heads@
                },
            },
    {
        match self.leader() {
            Some(i) => {
                let mut taken: Option<StoredResultRecord> = None;
                let slot = &mut self.heads[i];
                std::mem::swap(slot, &mut taken);
                match taken {
                    Some(record) => Some((i, record)),
                    None => None,
                }
            },
            None => None,
        }
    }

    /// Sets the next record of a run.
    pub fn refill(&mut self, run: usize, next: Option<StoredResultRecord>)
        requires
            run < old(self).heads.len(),
        ensures
            final(self).heads@ == old(self).heads@.update(run as int, next),
    {
        self.heads.set(run, next);
    }
}

/// All records of several runs, run by run.
pub open spec fn flat<T>(runs: Seq<Seq<T>>) -> Seq<T>
    decreases runs.len(),
{
    if runs.len() == 0 {
        Seq::empty()
    } else {
        flat(runs.drop_last()) + runs.last()
    }
}

/// What a run begins with is one of all the records.
pub proof fn lemma_flat_take<T>(runs: Seq<Seq<T>>, i: int)
    requires
        0 <= i < runs.len(),
        runs[i].len() > 0,
    ensures
        flat(runs).to_multiset() == flat(
            runs.update(i, runs[i].drop_first()),
        ).to_multiset().insert(runs[i][0]),
    decreases runs.len(),
{
    let x = runs[i][0];
    let shorter = runs.update(i, runs[i].drop_first());
    let front = flat(runs.drop_last());
    vstd::seq_lib::lemma_multiset_commutative(front, runs.last());
    vstd::seq_lib::lemma_multiset_commutative(flat(shorter.drop_last()), shorter.last());
    if i < runs.len() - 1 {
        assert(shorter.drop_last() =~= runs.drop_last().update(i, runs[i].drop_first()));
        lemma_flat_take(runs.drop_last(), i);
        assert(flat(runs).to_multiset() =~= flat(shorter).to_multiset().insert(x));
    } else {
        assert(shorter.drop_last() =~= runs.drop_last());
        let last = runs.last();
        assert(last =~= seq![x] + last.drop_first());
        vstd::seq_lib::lemma_multiset_commutative(seq![x], last.drop_first());
        let one = Seq::<T>::empty().push(x);
        assert(one =~= seq![x]);
        Seq::<T>::empty().to_multiset_ensures();
        assert(seq![x].to_multiset() =~= vstd::multiset::Multiset::empty().insert(x));
        assert(flat(runs).to_multiset() =~= flat(shorter).to_multiset().insert(x));
    }
}

/// Nothing is in runs that are all empty.
pub proof fn lemma_flat_empty<T>(runs: Seq<Seq<T>>)
    requires
        forall|i: int| 0 <= i < runs.len() ==> (#[trigger] runs[i]).len() == 0,
    ensures
        flat(runs) == Seq::<T>::empty(),
    decreases runs.len(),
{
    if runs.len() > 0 {
        assert forall|i: int| 0 <= i < runs.drop_last().len() implies (#[trigger] runs.drop_last()[i]).len()
            == 0 by {
            assert(runs.drop_last()[i] == runs[i]);
        }
        lemma_flat_empty(runs.drop_last());
        assert(flat(runs) =~= Seq::<T>::empty());
    }
}

/// What is still to come of each run: its head and the rest behind it.
spec fn queues(heads: Seq<Option<StoredResultRecord>>, rests: Seq<Vec<StoredResultRecord>>) -> Seq<
    Seq<StoredResultRecord>,
> {
    Seq::new(
        heads.len(),
        |i: int|
            match heads[i] {
                Some(record) => seq![record] + rests[i]@.reverse(),
                None => Seq::empty(),
            },
    )
}

/// The leading record comes after nothing that is still to come, as long as
/// every run is in order.
pub proof fn lemma_leader_is_first(
    heads: Seq<Option<StoredResultRecord>>,
    tails: Seq<Seq<StoredResultRecord>>,
    i: int,
    j: int,
    k: int,
)
    requires
        heads.len() == tails.len(),
        leads(heads, i),
        0 <= j < heads.len(),
        heads[j] is Some,
        ordering::in_order(seq![heads[j]->0] + tails[j]),
        0 <= k < tails[j].len(),
    ensures
        !ordering::key_before(tails[j][k].rank_key(), heads[i]->0.rank_key()),
{
    let q = seq![heads[j]->0] + tails[j];
    assert(q[0] == heads[j]->0);
    assert(q[k + 1] == tails[j][k]);
    assert(!ordering::key_before(q[k + 1].rank_key(), q[0].rank_key()));
    ordering::lemma_key_chain_weak(
        heads[i]->0.rank_key(),
        heads[j]->0.rank_key(),
        tails[j][k].rank_key(),
    );
}

pub(crate) fn reversed_records(list: Vec<StoredResultRecord>) -> (r: Vec<StoredResultRecord>)
    ensures
        r@ == list@.reverse(),
{
    let mut source = list;
    let ghost whole = source@;
    let mut out: Vec<StoredResultRecord> = Vec::new();
    while source.len() > 0
        invariant
            source@.len() <= whole.len(),
            source@ == whole.take(source@.len() as int),
            out@.len() + source@.len() == whole.len(),
            forall|i: int| 0 <= i < out@.len() ==> out@[i] == whole[whole.len() - 1 - i],
        decreases source@.len(),
    {
        match source.pop() {
            Some(item) => {
                out.push(item);
            },
            None => {},
        }
    }
    proof {
        assert(out@ =~= whole.reverse());
    }
    out
}

/// The runs as sequences.
pub open spec fn run_views(runs: Seq<Vec<StoredResultRecord>>) -> Seq<Seq<StoredResultRecord>> {
    Seq::new(runs.len(), |i: int| runs[i]@)
}

spec fn nothing_before(out: Seq<StoredResultRecord>, q: Seq<Seq<StoredResultRecord>>) -> bool {
    forall|k: int, j: int, m: int|
        #![trigger out[k], q[j][m]]
        0 <= k < out.len() && 0 <= j < q.len() && 0 <= m < q[j].len() ==> !ordering::key_before(
            q[j][m].rank_key(),
            out[k].rank_key(),
        )
}

/// Merges runs that are in order into one that is in order and holds the same
/// records.
pub fn merge_sorted_runs(runs: Vec<Vec<StoredResultRecord>>) -> (r: Vec<StoredResultRecord>)
    requires
        forall|i: int| 0 <= i < runs@.len() ==> ordering::in_order((#[trigger] runs@[i])@),
    ensures
        ordering::in_order(r@),
        r@.to_multiset() == flat(run_views(runs@)).to_multiset(),
{
    let ghost views = run_views(runs@);
    let mut source = runs;
    let mut rests: Vec<Vec<StoredResultRecord>> = Vec::new();
    let mut heads: Vec<Option<StoredResultRecord>> = Vec::new();
    let ghost whole = source@;
    while source.len() > 0
        invariant
            whole == runs@,
            source@ == whole.take(source@.len() as int),
            source@.len() <= whole.len(),
            rests@.len() == heads@.len(),
            heads@.len() + source@.len() == whole.len(),
            forall|i: int|
                0 <= i < heads@.len() ==> (#[trigger] queues(heads@, rests@)[i]) == whole[whole.len()
                    - 1 - i]@,
        decreases source@.len(),
    {
        let ghost old_heads = heads@;
        let ghost old_rests = rests@;
        match source.pop() {
            Some(run) => {
                let ghost all = run@;
                let mut rest = reversed_records(run);
                let head = rest.pop();
                proof {
                    if all.len() > 0 {
                        assert(head == Some(all[0]));
                        assert(rest@.reverse() =~= all.drop_first());
                        assert(seq![all[0]] + rest@.reverse() =~= all);
                    } else {
                        assert(all =~= Seq::<StoredResultRecord>::empty());
                    }
                }
                heads.push(head);
                rests.push(rest);
                proof {
                    assert forall|i: int| 0 <= i < heads@.len() implies (#[trigger] queues(
                        heads@,
                        rests@,
                    )[i]) == whole[whole.len() - 1 - i]@ by {
                        if i < old_heads.len() {
                            assert(queues(old_heads, old_rests)[i] == whole[whole.len() - 1 - i]@);
                        }
                    }
                }
            },
            None => {},
        }
    }
    let mut merger = RunMerger { heads };
    let mut out: Vec<StoredResultRecord> = Vec::new();
    let ghost total = flat(queues(merger.heads@, rests@)).to_multiset();
    proof {
        let q = queues(merger.heads@, rests@);
        assert(q =~= views.reverse());
        lemma_flat_reverse(views);
        assert forall|i: int| 0 <= i < q.len() implies ordering::in_order(#[trigger] q[i]) by {
            assert(q[i] == whole[whole.len() - 1 - i]@);
        }
        assert(out@.to_multiset().add(flat(q).to_multiset()) =~= total) by {
            Seq::<StoredResultRecord>::empty().to_multiset_ensures();
            assert(out@ =~= Seq::<StoredResultRecord>::empty());
            assert(out@.to_multiset() =~= vstd::multiset::Multiset::empty());
        }
    }
    loop
        invariant
            rests@.len() == merger.heads@.len(),
            ordering::in_order(out@),
            nothing_before(out@, queues(merger.heads@, rests@)),
            forall|i: int|
                0 <= i < merger.heads@.len() ==> ordering::in_order(
                    #[trigger] queues(merger.heads@, rests@)[i],
                ),
            out@.to_multiset().add(flat(queues(merger.heads@, rests@)).to_multiset()) == total,
        ensures
            ordering::in_order(out@),
            out@.to_multiset() == total,
        decreases flat(queues(merger.heads@, rests@)).len(),
    {
        let ghost old_heads = merger.heads@;
        let ghost old_rests = rests@;
        let ghost old_q = queues(old_heads, old_rests);
        let ghost old_out = out@;
        match merger.take_next() {
            Some((i, record)) => {
                let mut rest: Vec<StoredResultRecord> = Vec::new();
                let slot = &mut rests[i];
                std::mem::swap(slot, &mut rest);
                let ghost tail = rest@;
                let next = rest.pop();
                let ghost next_view = next;
                merger.refill(i, next);
                rests.set(i, rest);
                out.push(record);
                proof {
                    let q = queues(merger.heads@, rests@);
                    if tail.len() > 0 {
                        assert(tail.reverse() =~= seq![tail.last()] + rests@[i as int]@.reverse());
                    } else {
                        assert(tail.reverse() =~= Seq::<StoredResultRecord>::empty());
                    }
                    assert(old_q[i as int].drop_first() =~= tail.reverse());
                    assert(q =~= old_q.update(i as int, old_q[i as int].drop_first()));
                    lemma_flat_take(old_q, i as int);
                    flat(q).to_multiset_ensures();
                    flat(old_q).to_multiset_ensures();
                    old_out.to_multiset_ensures();
                    assert(out@.to_multiset().add(flat(q).to_multiset()) =~= total);
                    assert forall|j: int, m: int|
                        0 <= j < old_q.len() && 0 <= m < old_q[j].len() implies !ordering::key_before(
                        (#[trigger] old_q[j][m]).rank_key(),
                        record.rank_key(),
                    ) by {
                        assert(old_heads[j] is Some);
                        let rest_j = old_rests[j]@.reverse();
                        if m > 0 {
                            let tails = Seq::new(
                                old_heads.len(),
                                |t: int| old_rests[t]@.reverse(),
                            );
                            assert(tails[j] == rest_j);
                            assert(ordering::in_order(old_q[j]));
                            lemma_leader_is_first(old_heads, tails, i as int, j, m - 1);
                            assert(old_q[j][m] == rest_j[m - 1]);
                        } else {
                            assert(old_q[j][0] == old_heads[j]->0);
                        }
                    }
                    assert(nothing_before(out@, q)) by {
                        assert forall|k: int, j: int, m: int|
                            #![trigger out@[k], q[j][m]]
                            0 <= k < out@.len() && 0 <= j < q.len() && 0 <= m < q[j].len() implies !ordering::key_before(
                            q[j][m].rank_key(),
                            out@[k].rank_key(),
                        ) by {
                            let mm = if j == i {
                                m + 1
                            } else {
                                m
                            };
                            assert(q[j][m] == old_q[j][mm]);
                            if k < old_out.len() {
                                assert(out@[k] == old_out[k]);
                            }
                        }
                    }
                    assert forall|a: int, b: int|
                        #![trigger out@[a], out@[b]]
                        0 <= a < b < out@.len() implies !ordering::key_before(
                        out@[b].rank_key(),
                        out@[a].rank_key(),
                    ) by {
                        assert(out@[a] == old_out[a]);
                        if b < old_out.len() {
                            assert(out@[b] == old_out[b]);
                        } else {
                            assert(old_q[i as int][0] == record);
                        }
                    }
                    assert forall|t: int| 0 <= t < merger.heads@.len() implies ordering::in_order(
                        #[trigger] q[t],
                    ) by {
                        if t == i {
                            let o = old_q[t];
                            let d = o.drop_first();
                            assert(ordering::in_order(o));
                            assert forall|a: int, b: int|
                                #![trigger d[a], d[b]]
                                0 <= a < b < d.len() implies !ordering::key_before(
                                d[b].rank_key(),
                                d[a].rank_key(),
                            ) by {
                                assert(d[a] == o[a + 1] && d[b] == o[b + 1]);
                            }
                        } else {
                            assert(q[t] == old_q[t]);
                            assert(ordering::in_order(old_q[t]));
                        }
                    }
                }
            },
            None => {
                proof {
                    assert forall|t: int| 0 <= t < old_q.len() implies (#[trigger] old_q[t]).len()
                        == 0 by {
                        assert(old_heads[t] is None);
                    }
                    lemma_flat_empty(old_q);
                    Seq::<StoredResultRecord>::empty().to_multiset_ensures();
                    assert(flat(old_q).to_multiset() =~= vstd::multiset::Multiset::empty());
                    assert(out@.to_multiset() =~= total);
                }
                break;
            },
        }
    }
    out
}

proof fn lemma_flat_reverse<T>(runs: Seq<Seq<T>>)
    ensures
        flat(runs.reverse()).to_multiset() == flat(runs).to_multiset(),
    decreases runs.len(),
{
    if runs.len() == 0 {
        assert(runs.reverse() =~= runs);
    } else {
        let rest = runs.drop_last();
        lemma_flat_reverse(rest);
        let r = runs.reverse();
        assert(r =~= seq![runs.last()] + rest.reverse());
        lemma_flat_concat(seq![runs.last()], rest.reverse());
        let single = seq![runs.last()];
        assert(single.drop_last() =~= Seq::<Seq<T>>::empty());
        assert(flat(single.drop_last()) =~= Seq::<T>::empty());
        assert(flat(single) =~= runs.last());
        vstd::seq_lib::lemma_multiset_commutative(runs.last(), flat(rest.reverse()));
        vstd::seq_lib::lemma_multiset_commutative(flat(rest), runs.last());
        assert(flat(r).to_multiset() =~= flat(runs).to_multiset());
    }
}

/// The records of two rows of runs.
pub proof fn lemma_flat_concat<T>(a: Seq<Seq<T>>, b: Seq<Seq<T>>)
    ensures
        flat(a + b) == flat(a) + flat(b),
    decreases b.len(),
{
    if b.len() == 0 {
        assert(a + b =~= a);
        assert(flat(a) + flat(b) =~= flat(a));
    } else {
        assert((a + b).drop_last() =~= a + b.drop_last());
        lemma_flat_concat(a, b.drop_last());
        assert(flat(a + b) =~= flat(a) + flat(b));
    }
}

} // verus!
