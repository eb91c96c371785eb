//! Reading a result store page by page.

use crate::arith;
use crate::bytes;
use crate::result_store;
use crate::result_store::{
    HEADER_BYTES, RESULT_STORE_PAGE_CACHE_LIMIT, RESULT_STORE_PAGE_SIZE, RESULT_STORE_SPARSE_STEP,
};
use crate::results;
use crate::results::SearchResult;
use crate::store_builder::ResultStoreManifest;
use crate::store_codec;
use crate::store_codec::{RecordModel, StoreError};
use vstd::prelude::*;

verus! {

/// The first index of the page that holds an index.
pub open spec fn page_start_of(index: int) -> int {
    index / 128 * 128
}

/// The end of a page.
pub open spec fn page_end_of(start: int, count: int) -> int {
    arith::min_int(start + 128, count)
}

/// A page: its first index, and its results.
#[derive(Debug, PartialEq, Eq)]
pub struct CachedPage {
    pub start: usize,
    pub results: Vec<SearchResult>,
}

/// Which bytes of the file hold a page: those from `offset` up to `end` or, where
/// there is none, up to the end of the file. Behind `skip` records come the `take`
/// records of the page.
#[derive(Clone, Copy, Debug, PartialEq, Eq, Structural)]
pub struct PagePlan {
    pub start: usize,
    pub offset: u64,
    pub end: Option<u64>,
    pub skip: usize,
    pub take: usize,
}

/// An open store, and the pages read last, the latest in front.
#[derive(Debug, PartialEq, Eq)]
pub struct ResultStoreReader {
    pub count: usize,
    pub path: String,
    pub sparse_offsets: Vec<u64>,
    pub pages: Vec<CachedPage>,
}

/// The first indices of pages.
pub open spec fn starts_of(pages: Seq<CachedPage>) -> Seq<usize> {
    Seq::new(pages.len(), |i: int| pages[i].start)
}

/// The place of the first page that starts at an index.
pub open spec fn place_of_page(pages: Seq<CachedPage>, start: usize, p: int) -> bool {
    &&& 0 <= p < pages.len()
    &&& pages[p].start == start
    &&& forall|q: int| 0 <= q < p ==> (#[trigger] pages[q]).start != start
}

/// Pages with the one at a place moved to the front.
pub open spec fn moved_to_front(pages: Seq<CachedPage>, p: int) -> Seq<CachedPage> {
    seq![pages[p]] + pages.remove(p)
}

/// The store whose file begins with the given bytes, or why it cannot be opened:
/// there is no path, the file is no store, or the counts differ.
pub fn open_store(manifest: ResultStoreManifest, header: &[u8]) -> (r: Result<
    ResultStoreReader,
    StoreError,
>)
    ensures
        match manifest.path {
            None => r matches Err(e) && e == StoreError::MissingPath,
            Some(path) => match result_store::parsed_header(header@, true) {
                Err(expected) => r matches Err(e) && e == expected,
                Ok(n) => if (n as u64) as usize != manifest.count {
                    r matches Err(e) && e == StoreError::CountMismatch
                } else {
                    r matches Ok(reader) && reader.count == manifest.count && reader.path@ == path@
                        && reader.sparse_offsets@ == manifest.sparse_offsets@
                        && reader.pages@.len() == 0
                },
            },
        },
{
    match manifest.path {
        None => Err(StoreError::MissingPath),
        Some(path) => match result_store::read_header(header, true) {
            Err(e) => Err(e),
            Ok(n) => {
                if n as usize != manifest.count {
                    Err(StoreError::CountMismatch)
                } else {
                    Ok(
                        ResultStoreReader {
                            count: manifest.count,
                            path,
                            sparse_offsets: manifest.sparse_offsets,
                            pages: Vec::new(),
                        },
                    )
                }
            },
        },
    }
}

/// What a plan says of a page.
pub open spec fn plans(
    plan: PagePlan,
    sparse_offsets: Seq<u64>,
    start: int,
    count: int,
) -> bool {
    let k = start / 256;
    &&& plan.start == start
    &&& plan.offset == (if k < sparse_offsets.len() {
        sparse_offsets[k]
    } else {
        HEADER_BYTES
    })
    &&& plan.end == (if k + 1 < sparse_offsets.len() {
        Some(sparse_offsets[k + 1])
    } else {
        None
    })
    &&& plan.skip == start - k * 256
    &&& plan.take == page_end_of(start, count) - start
}

/// What a step with a page cache does: the page is found and moved to the front,
/// or nothing changes.
pub open spec fn looked_up(
    before: Seq<CachedPage>,
    after: Seq<CachedPage>,
    index: usize,
    found: Option<SearchResult>,
) -> bool {
    let start = page_start_of(index as int) as usize;
    if exists|p: int| place_of_page(before, start, p) {
        let p = choose|p: int| place_of_page(before, start, p);
        &&& after == moved_to_front(before, p)
        &&& if index - start < before[p].results@.len() {
            found matches Some(result) && results::same_result(
                result,
                before[p].results@[index - start],
            )
        } else {
            found is None
        }
    } else {
        after == before && found is None
    }
}

impl ResultStoreReader {
    /// The number of results.
    pub fn len(&self) -> (r: usize)
        ensures
            r == self.count,
    {
        self.count
    }

    /// The first indices of the pages kept, the latest in front.
    pub fn cached_page_starts(&self) -> (r: Vec<usize>)
        ensures
            r@ == starts_of(self.pages@),
    {
        let mut out: Vec<usize> = Vec::new();
        let mut i: usize = 0;
        while i < self.pages.len()
            invariant
                i <= self.pages.len(),
                out@ == starts_of(self.pages@).take(i as int),
            decreases self.pages.len() - i,
        {
            out.push(self.pages[i].start);
            i += 1;
            proof {
                assert(out@ =~= starts_of(self.pages@).take(i as int));
            }
        }
        proof {
            assert(out@ =~= starts_of(self.pages@));
        }
        out
    }

    /// The result at an index, where its page is kept. The page is then the latest.
    pub fn cached_result(&mut self, index: usize) -> (r: Option<SearchResult>)
        ensures
            looked_up(old(self).pages@, final(self).pages@, index, r),
            final(self).count == old(self).count,
            final(self).path@ == old(self).path@,
            final(self).sparse_offsets@ == old(self).sparse_offsets@,
    {
        let start: usize = index / RESULT_STORE_PAGE_SIZE * RESULT_STORE_PAGE_SIZE;
        let mut p: usize = 0;
        while p < self.pages.len() && self.pages[p].start != start
            invariant
                p <= self.pages.len(),
                forall|q: int| 0 <= q < p ==> (#[trigger] self.pages@[q]).start != start,
            decreases self.pages.len() - p,
        {
            p += 1;
        }
        if p == self.pages.len() {
            return None;
        }
        let ghost before = self.pages@;
        proof {
            assert(place_of_page(before, start, p as int));
            let q = choose|q: int| place_of_page(before, start, q);
            assert(place_of_page(before, start, q));
            assert(q == p);
        }
        let page = self.pages.remove(p);
        let at: usize = index - start;
        let result: Option<SearchResult> = if at < page.results.len() {
            Some(page.results[at].copy())
        } else {
            None
        };
        self.pages.insert(0, page);
        proof {
            assert(self.pages@ =~= moved_to_front(before, p as int));
        }
        result
    }

    /// Where the page that starts at an index is found in the file.
    pub fn page_plan(&self, start: usize) -> (r: PagePlan)
        requires
            start < self.count,
        ensures
            plans(r, self.sparse_offsets@, start as int, self.count as int),
    {
        let k: usize = start / RESULT_STORE_SPARSE_STEP;
        let offset: u64 = if k < self.sparse_offsets.len() {
            self.sparse_offsets[k]
        } else {
            HEADER_BYTES
        };
        let end: Option<u64> = if k + 1 < self.sparse_offsets.len() {
            Some(self.sparse_offsets[k + 1])
        } else {
            None
        };
        let page_end: usize = if self.count - start < RESULT_STORE_PAGE_SIZE {
            self.count
        } else {
            start + RESULT_STORE_PAGE_SIZE
        };
        PagePlan {
            start,
            offset,
            end,
            skip: start - k * RESULT_STORE_SPARSE_STEP,
            take: page_end - start,
        }
    }

    /// The plan for the page that holds an index; none where there is no such result.
    pub fn plan_for(&self, index: usize) -> (r: Option<PagePlan>)
        ensures
            match r {
                None => index >= self.count,
                Some(plan) => index < self.count && plans(
                    plan,
                    self.sparse_offsets@,
                    page_start_of(index as int),
                    self.count as int,
                ),
            },
    {
        if index >= self.count {
            return None;
        }
        let start: usize = index / RESULT_STORE_PAGE_SIZE * RESULT_STORE_PAGE_SIZE;
        Some(self.page_plan(start))
    }

    /// Keeps a page as the latest and lets go of the oldest ones beyond the limit.
    pub fn keep_page(&mut self, page: CachedPage)
        ensures
            final(self).pages@ == (seq![page] + old(self).pages@).take(
                arith::min_int(old(self).pages@.len() as int + 1, 3),
            ),
            final(self).count == old(self).count,
            final(self).path@ == old(self).path@,
            final(self).sparse_offsets@ == old(self).sparse_offsets@,
    {
        let ghost before = self.pages@;
        self.pages.insert(0, page);
        proof {
            assert(self.pages@ =~= seq![page] + before);
        }
        if self.pages.len() > RESULT_STORE_PAGE_CACHE_LIMIT {
            self.pages.truncate(RESULT_STORE_PAGE_CACHE_LIMIT);
        }
        proof {
            assert(self.pages@ =~= (seq![page] + before).take(
                arith::min_int(before.len() as int + 1, 3),
            ));
        }
    }
}

/// Reads a page from the bytes that its plan names.
pub fn read_page(plan: PagePlan, block: &[u8]) -> (r: Result<CachedPage, StoreError>)
    requires
        plan.skip + plan.take <= usize::MAX,
    ensures
        match result_store::parsed_many(block@, 0, (plan.skip + plan.take) as nat) {
            Err(expected) => r matches Err(e) && e == expected,
            Ok((ms, _)) => {
                &&& r matches Ok(page)
                &&& page.start == plan.start
                &&& page.results@.len() == ms.skip(plan.skip as int).len()
                &&& forall|i: int|
                    0 <= i < page.results@.len() ==> store_codec::shows_record(
                        #[trigger] page.results@[i],
                        ms.skip(plan.skip as int)[i],
                    )
            },
        },
{
    match result_store::read_records(block, 0, plan.skip, plan.take) {
        Err(e) => Err(e),
        Ok(found) => {
            let ghost ms = store_codec::models(found@);
            let mut records = result_store::reversed_records(found);
            let ghost whole = records@;
            let mut results: Vec<SearchResult> = Vec::new();
            while records.len() > 0
                invariant
                    records@.len() + results@.len() == whole.len(),
                    records@ == whole.take(records@.len() as int),
                    whole == found@.reverse(),
                    ms == store_codec::models(found@),
                    forall|i: int|
                        0 <= i < results@.len() ==> store_codec::shows_record(
                            #[trigger] results@[i],
                            ms[i],
                        ),
                decreases records@.len(),
            {
                let ghost shown = results@.len() as int;
                match records.pop() {
                    Some(record) => {
                        proof {
                            assert(record == found@[shown]);
                            assert(ms[shown] == record@);
                        }
                        results.push(record.into_search_result());
                    },
                    None => {},
                }
            }
            Ok(CachedPage { start: plan.start, results })
        },
    }
}

/// A page read from a store is the page of the records that were written: with
/// the known offsets of the store, the bytes that a plan names give back the
/// records from the first index of the page up to its end.
#[verifier::rlimit(60)]
#[verifier::spinoff_prover]
pub proof fn lemma_page_round_trip(
    ms: Seq<RecordModel>,
    sparse_offsets: Seq<u64>,
    start: int,
    plan: PagePlan,
)
    requires
        result_store::sizes_fit(ms),
        result_store::offset_values(sparse_offsets) == result_store::known_offsets(ms),
        0 <= start < ms.len(),
        start % 128 == 0,
        plans(plan, sparse_offsets, start, ms.len() as int),
    ensures
        ({
            let file = result_store::file_bytes(true, ms);
            let end = match plan.end {
                Some(e) => e as int,
                None => file.len() as int,
            };
            let block = file.subrange(plan.offset as int, end);
            result_store::parsed_many(block, 0, (plan.skip + plan.take) as nat) matches Ok((found, _))
                && found.skip(plan.skip as int) == ms.subrange(
                start,
                page_end_of(start, ms.len() as int),
            )
        }),
{
    let file = result_store::file_bytes(true, ms);
    let k = start / 256;
    let known = result_store::known_offsets(ms);
    assert(known.len() == (ms.len() + 255) / 256);
    assert(k < known.len());
    assert(result_store::offset_values(sparse_offsets).len() == sparse_offsets.len());
    assert(sparse_offsets[k] == known[k]) by {
        assert(result_store::offset_values(sparse_offsets)[k] == sparse_offsets[k]);
    }
    let first = 256 * k;
    let last = arith::min_int(first + 256, ms.len() as int);
    let header = result_store::header_bytes(true, ms.len());
    bytes::lemma_le(ms.len(), 8);
    assert(header.len() == 16);
    result_store::lemma_records_bytes_prefix(ms, last);
    result_store::lemma_records_bytes_prefix(ms.take(last), first);
    assert(ms.take(last).take(first) =~= ms.take(first));
    let before = result_store::records_bytes(ms.take(first));
    let mid_ms = ms.take(last).skip(first);
    let mid = result_store::records_bytes(mid_ms);
    let after = result_store::records_bytes(ms.skip(last));
    assert(result_store::records_bytes(ms) == before + mid + after);
    let end = match plan.end {
        Some(e) => e as int,
        None => file.len() as int,
    };
    assert(plan.offset == 16 + before.len());
    if k + 1 < known.len() {
        assert(last == 256 * (k + 1));
        assert(result_store::offset_values(sparse_offsets)[k + 1] == sparse_offsets[k + 1]);
        assert(known[k + 1] == result_store::offset_of(ms, 256 * (k + 1)));
        assert(end == 16 + before.len() + mid.len());
    } else {
        assert(last == ms.len());
        assert(ms.skip(last) =~= Seq::<RecordModel>::empty());
        assert(after.len() == 0);
        assert(end == 16 + before.len() + mid.len());
    }
    let block = file.subrange(plan.offset as int, end);
    assert(block =~= mid);
    let n = (plan.skip + plan.take) as nat;
    let empty = Seq::<u8>::empty();
    assert(empty + mid + empty =~= mid);
    assert(result_store::sizes_fit(mid_ms)) by {
        assert forall|i: int| 0 <= i < mid_ms.len() implies store_codec::record_size(
            #[trigger] mid_ms[i],
        ) <= u32::MAX by {
            assert(mid_ms[i] == ms[first + i]);
        }
    }
    assert(n <= mid_ms.len()) by {
        assert(start - first == 0 || start - first == 128) by {
            assert(start % 128 == 0);
        }
    }
    result_store::lemma_parsed_many(empty, mid_ms, empty, n);
    assert(mid_ms.take(n as int).skip(plan.skip as int) =~= ms.subrange(
        start,
        page_end_of(start, ms.len() as int),
    ));
}

// ---------------------------------------------------------------------------
// Whatever was read before
// ---------------------------------------------------------------------------

/// The bytes of a file that a plan names.
pub open spec fn block_of(file: Seq<u8>, plan: PagePlan) -> Seq<u8> {
    file.subrange(
        plan.offset as int,
        match plan.end {
            Some(end) => end as int,
            None => file.len() as int,
        },
    )
}

/// A page was read from the bytes that its plan names.
pub open spec fn is_read(page: CachedPage, plan: PagePlan, block: Seq<u8>) -> bool {
    &&& result_store::parsed_many(block, 0, (plan.skip + plan.take) as nat) matches Ok((ms, _))
    &&& page.start == plan.start
    &&& page.results@.len() == ms.skip(plan.skip as int).len()
    &&& forall|i: int|
        0 <= i < page.results@.len() ==> store_codec::shows_record(
            #[trigger] page.results@[i],
            ms.skip(plan.skip as int)[i],
        )
}

/// A page shows its part of the records.
pub open spec fn is_page_of(page: CachedPage, ms: Seq<RecordModel>) -> bool {
    &&& page.start % 128 == 0
    &&& page.start < ms.len()
    &&& page.results@.len() == page_end_of(page.start as int, ms.len() as int) - page.start
    &&& forall|i: int|
        0 <= i < page.results@.len() ==> store_codec::shows_record(
            #[trigger] page.results@[i],
            ms[page.start + i],
        )
}

impl ResultStoreReader {
    /// A reader of a store with the given records: it keeps at most three pages, and each
    /// shows its part of them.
    pub open spec fn reads(&self, ms: Seq<RecordModel>) -> bool {
        &&& self.count == ms.len()
        &&& result_store::offset_values(self.sparse_offsets@) == result_store::known_offsets(ms)
        &&& self.pages@.len() <= 3
        &&& forall|p: int| 0 <= p < self.pages@.len() ==> is_page_of(#[trigger] self.pages@[p], ms)
    }

    /// The reader is one of the same store.
    pub open spec fn same_store(&self, other: &ResultStoreReader) -> bool {
        &&& self.count == other.count
        &&& self.path@ == other.path@
        &&& self.sparse_offsets@ == other.sparse_offsets@
    }
}

/// What happens while a result is fetched: the reader after the kept pages were looked
/// through, and what was found there; the plan and the page that was read, and the reader
/// that keeps it.
pub struct Fetch {
    pub looked: ResultStoreReader,
    pub cached: Option<SearchResult>,
    pub plan: PagePlan,
    pub page: CachedPage,
    pub kept: ResultStoreReader,
}

/// A result is fetched: from the kept pages, or else from the page that is read from the
/// file.
pub open spec fn fetches(
    before: ResultStoreReader,
    index: usize,
    fetch: Fetch,
    found: Option<SearchResult>,
    after: ResultStoreReader,
    file: Seq<u8>,
) -> bool {
    &&& fetch.looked.same_store(&before)
    &&& after.same_store(&before)
    &&& looked_up(before.pages@, fetch.looked.pages@, index, fetch.cached)
    &&& if fetch.cached is Some {
        found == fetch.cached && after.pages@ == fetch.looked.pages@
    } else if index >= before.count {
        found is None && after.pages@ == fetch.looked.pages@
    } else {
        &&& plans(
            fetch.plan,
            before.sparse_offsets@,
            page_start_of(index as int),
            before.count as int,
        )
        &&& is_read(fetch.page, fetch.plan, block_of(file, fetch.plan))
        &&& fetch.kept.pages@ == (seq![fetch.page] + fetch.looked.pages@).take(
            arith::min_int(fetch.looked.pages@.len() as int + 1, 3),
        )
        &&& looked_up(fetch.kept.pages@, after.pages@, index, found)
    }
}

/// What a store begins with says how many records it has, so that it can be opened; and
/// with nothing kept a reader is one of the store.
pub proof fn lemma_written_store_opens(reader: ResultStoreReader, ms: Seq<RecordModel>)
    requires
        ms.len() <= usize::MAX,
        reader.count == ms.len(),
        result_store::offset_values(reader.sparse_offsets@) == result_store::known_offsets(ms),
        reader.pages@.len() == 0,
    ensures
        result_store::parsed_header(
            result_store::file_bytes(true, ms).take(HEADER_BYTES as int),
            true,
        ) == Ok::<nat, StoreError>(ms.len()),
        (ms.len() as u64) as usize == reader.count,
        reader.reads(ms),
{
    let magic = result_store::magic_of(true);
    let none = Seq::<u8>::empty();
    bytes::lemma_span();
    bytes::lemma_le(ms.len(), 8);
    bytes::lemma_number_round_trip(ms.len(), 8, magic, none);
    let front = result_store::file_bytes(true, ms).take(16);
    assert(front =~= magic + bytes::le(ms.len(), 8) + none);
    assert(front.subrange(0, 8) =~= magic);
}

/// Looking through the kept pages gives the record at the index, where its page is kept,
/// and keeps the same pages.
proof fn lemma_kept_page_shows(
    before: Seq<CachedPage>,
    after: Seq<CachedPage>,
    index: usize,
    found: Option<SearchResult>,
    ms: Seq<RecordModel>,
)
    requires
        before.len() <= 3,
        forall|p: int| 0 <= p < before.len() ==> is_page_of(#[trigger] before[p], ms),
        looked_up(before, after, index, found),
    ensures
        after.len() <= 3,
        forall|p: int| 0 <= p < after.len() ==> is_page_of(#[trigger] after[p], ms),
        found matches Some(result) ==> index < ms.len() && store_codec::shows_record(
            result,
            ms[index as int],
        ),
        index < ms.len() && (exists|p: int|
            #![trigger before[p]]
            0 <= p < before.len() && before[p].start == page_start_of(index as int)) ==> found
            is Some,
{
    let start = page_start_of(index as int) as usize;
    if exists|p: int| place_of_page(before, start, p) {
        let p = choose|p: int| place_of_page(before, start, p);
        assert(is_page_of(before[p], ms));
        assert forall|q: int| 0 <= q < after.len() implies is_page_of(#[trigger] after[q], ms) by {
            if q > 0 {
                if q - 1 < p {
                    assert(after[q] == before[q - 1]);
                } else {
                    assert(after[q] == before[q]);
                }
            }
        }
        if index - start < before[p].results@.len() {
            assert(store_codec::shows_record(before[p].results@[index - start], ms[start + (index
                - start)]));
        }
    } else {
        assert forall|p: int|
            #![trigger before[p]]
            0 <= p < before.len() implies before[p].start != page_start_of(index as int) by {
            if before[p].start == start {
                lemma_first_page(before, start, p);
            }
        }
    }
}

proof fn lemma_first_page(pages: Seq<CachedPage>, start: usize, p: int)
    requires
        0 <= p < pages.len(),
        pages[p].start == start,
    ensures
        exists|q: int| place_of_page(pages, start, q),
    decreases p,
{
    if forall|q: int| 0 <= q < p ==> (#[trigger] pages[q]).start != start {
        assert(place_of_page(pages, start, p));
    } else {
        let q = choose|q: int| 0 <= q < p && (#[trigger] pages[q]).start == start;
        lemma_first_page(pages, start, q);
    }
}

/// Fetching gives the record at the index, and none where there is no such record; the
/// reader stays one of the store.
pub proof fn lemma_fetch_gives_the_record(
    before: ResultStoreReader,
    index: usize,
    fetch: Fetch,
    found: Option<SearchResult>,
    after: ResultStoreReader,
    ms: Seq<RecordModel>,
)
    requires
        before.reads(ms),
        result_store::sizes_fit(ms),
        fetches(before, index, fetch, found, after, result_store::file_bytes(true, ms)),
    ensures
        after.reads(ms),
        match found {
            Some(result) => index < ms.len() && store_codec::shows_record(
                result,
                ms[index as int],
            ),
            None => index >= ms.len(),
        },
{
    lemma_kept_page_shows(before.pages@, fetch.looked.pages@, index, fetch.cached, ms);
    if fetch.cached is None && index < ms.len() {
        let start = page_start_of(index as int);
        assert(start % 128 == 0 && start <= index);
        lemma_page_round_trip(ms, before.sparse_offsets@, start, fetch.plan);
        let page = fetch.page;
        assert(is_page_of(page, ms));
        let kept = fetch.kept.pages@;
        assert forall|p: int| 0 <= p < kept.len() implies is_page_of(#[trigger] kept[p], ms) by {
            if p > 0 {
                assert(kept[p] == fetch.looked.pages@[p - 1]);
            }
        }
        assert(kept[0] == page && kept[0].start == start);
        lemma_kept_page_shows(kept, after.pages@, index, found, ms);
    }
}

/// Whatever was read before, a store gives the record at an index; at most three pages are
/// kept all along.
pub proof fn lemma_every_fetch_gives_its_record(
    readers: Seq<ResultStoreReader>,
    indices: Seq<usize>,
    fetched: Seq<Fetch>,
    found: Seq<Option<SearchResult>>,
    ms: Seq<RecordModel>,
    k: int,
)
    requires
        readers.len() == indices.len() + 1,
        fetched.len() == indices.len(),
        found.len() == indices.len(),
        readers[0].reads(ms),
        result_store::sizes_fit(ms),
        forall|i: int|
            0 <= i < indices.len() ==> fetches(
                readers[i],
                #[trigger] indices[i],
                fetched[i],
                found[i],
                readers[i + 1],
                result_store::file_bytes(true, ms),
            ),
        0 <= k <= indices.len(),
    ensures
        readers[k].reads(ms),
        k < indices.len() ==> match found[k] {
            Some(result) => indices[k] < ms.len() && store_codec::shows_record(
                result,
                ms[indices[k] as int],
            ),
            None => indices[k] >= ms.len(),
        },
    decreases k,
{
    if k > 0 {
        lemma_every_fetch_gives_its_record(readers, indices, fetched, found, ms, k - 1);
        assert(fetches(
            readers[k - 1],
            indices[k - 1],
            fetched[k - 1],
            found[k - 1],
            readers[k],
            result_store::file_bytes(true, ms),
        ));
        lemma_fetch_gives_the_record(
            readers[k - 1],
            indices[k - 1],
            fetched[k - 1],
            found[k - 1],
            readers[k],
            ms,
        );
    }
    if k < indices.len() {
        lemma_fetch_gives_the_record(
            readers[k],
            indices[k],
            fetched[k],
            found[k],
            readers[k + 1],
            ms,
        );
    }
}


} // verus!
