//! One worker and many: whoever looks at what, and in whatever order, the best are the
//! same.

use crate::arith;
use crate::collect;
use crate::ordering;
use crate::ordering::{RankKey, Ranked};
use crate::results;
use crate::results::RankedCandidate;
use crate::scan;
use crate::scan::{DirectoryScanContext, PreparedSearchResult, SearchScope};
use crate::scan_tasks::ScanFolder;
use crate::search_progress;
use crate::streaming;
use crate::streaming::FoundEntry;
use crate::text;
use crate::types::LaunchItem;
use vstd::prelude::*;

verus! {

/// Something to look at: an entry, with the folder and the directory that it was found in.
pub struct Look {
    pub entry: FoundEntry,
    pub folder: ScanFolder,
    pub directory: DirectoryScanContext,
}

/// The text score of something to look at; none where it is passed over or does not fit.
pub open spec fn look_fit(scope: SearchScope, look: Look, working_directory: Seq<char>) -> Option<
    i32,
> {
    streaming::entry_fit(scope, look.entry, look.folder, look.directory, working_directory)
}

/// A candidate is the one of a look.
pub open spec fn is_of(
    candidate: RankedCandidate,
    scope: SearchScope,
    look: Look,
    working_directory: Seq<char>,
) -> bool {
    look_fit(scope, look, working_directory) matches Some(text_score) && streaming::is_candidate_of(
        candidate,
        scope,
        look.entry,
        look.folder,
        look.directory,
        text_score,
    )
}

/// What comes of a look at something that was not seen before.
pub open spec fn is_found(
    found: Option<RankedCandidate>,
    scope: SearchScope,
    look: Look,
    working_directory: Seq<char>,
) -> bool {
    match found {
        Some(candidate) => is_of(candidate, scope, look, working_directory),
        None => look_fit(scope, look, working_directory) is None,
    }
}

/// What came of each look.
pub open spec fn are_found(
    found: Seq<Option<RankedCandidate>>,
    scope: SearchScope,
    looks: Seq<Look>,
    working_directory: Seq<char>,
) -> bool {
    &&& found.len() == looks.len()
    &&& forall|i: int|
        0 <= i < looks.len() ==> is_found(#[trigger] found[i], scope, looks[i], working_directory)
}

/// The key that a look gives its candidate.
pub open spec fn look_key(scope: SearchScope, look: Look, working_directory: Seq<char>) -> RankKey {
    (choose|candidate: RankedCandidate| is_of(candidate, scope, look, working_directory)).rank_key()
}

/// Whatever is found by one look has one key.
pub proof fn lemma_one_look_one_key(
    a: RankedCandidate,
    b: RankedCandidate,
    scope: SearchScope,
    look: Look,
    working_directory: Seq<char>,
)
    requires
        is_of(a, scope, look, working_directory),
        is_of(b, scope, look, working_directory),
    ensures
        a.rank_key() == b.rank_key(),
{
    let text_score = look_fit(scope, look, working_directory)->0;
    let time = streaming::known_time(scope, look.entry);
    let x = choose|item: LaunchItem| #[trigger]
        scan::is_item_at(
            item,
            look.entry.path@,
            Some(look.entry.file_name@),
            look.entry.is_dir,
            look.folder.context.root,
            look.directory,
            time,
        ) && a == scope.candidate_of(item, text_score);
    let y = choose|item: LaunchItem| #[trigger]
        scan::is_item_at(
            item,
            look.entry.path@,
            Some(look.entry.file_name@),
            look.entry.is_dir,
            look.folder.context.root,
            look.directory,
            time,
        ) && b == scope.candidate_of(item, text_score);
    assert(x.relative_depth == y.relative_depth);
    assert(a.score == b.score);
}

// ---------------------------------------------------------------------------
// Many workers
// ---------------------------------------------------------------------------

/// What a worker does with what it found, by a threshold that it knew when it looked and
/// one that it knew when it offered: it is left out, or offered to the best that all
/// share.
pub open spec fn is_offered(
    scope: SearchScope,
    best: Seq<RankedCandidate>,
    found: Option<RankedCandidate>,
    seen_threshold: u64,
    known_threshold: u64,
    limit: usize,
    storing: bool,
    after: Seq<RankedCandidate>,
) -> bool {
    match found {
        None => after == best,
        Some(candidate) => after == (if !storing && results::is_hopeless(
            streaming::candidate_bound(scope, candidate),
            seen_threshold as int,
        ) || search_progress::turned_away(candidate, known_threshold, storing) {
            best
        } else {
            ordering::offered(best, candidate, limit)
        }),
    }
}

/// A threshold that the best had up to now; or none.
pub open spec fn was_threshold(
    threshold: u64,
    bests: Seq<Seq<RankedCandidate>>,
    i: int,
    limit: usize,
) -> bool {
    threshold == 0 || exists|j: int|
        0 <= j <= i && threshold == results::threshold_of(#[trigger] bests[j], limit)
}

/// Workers take turns at the best that they share, in whatever order, each by thresholds
/// that the best had at some time.
pub open spec fn take_turns(
    scope: SearchScope,
    bests: Seq<Seq<RankedCandidate>>,
    found: Seq<Option<RankedCandidate>>,
    seen_thresholds: Seq<u64>,
    known_thresholds: Seq<u64>,
    limit: usize,
    storing: bool,
) -> bool {
    &&& bests.len() == found.len() + 1
    &&& seen_thresholds.len() == found.len()
    &&& known_thresholds.len() == found.len()
    &&& forall|i: int|
        0 <= i < found.len() ==> {
            &&& is_offered(
                scope,
                bests[i],
                #[trigger] found[i],
                seen_thresholds[i],
                known_thresholds[i],
                limit,
                storing,
                bests[i + 1],
            )
            &&& was_threshold(seen_thresholds[i], bests, i, limit)
            &&& was_threshold(known_thresholds[i], bests, i, limit)
        }
}

/// All are candidates of a search through folders.
pub open spec fn are_of_folders(best: Seq<RankedCandidate>) -> bool {
    forall|i: int| 0 <= i < best.len() ==> search_progress::is_of_folders(#[trigger] best[i])
}

/// What a worker leaves out would not have entered.
proof fn lemma_left_out_would_not_enter(
    scope: SearchScope,
    best: Seq<RankedCandidate>,
    candidate: RankedCandidate,
    look: Look,
    working_directory: Seq<char>,
    seen_threshold: u64,
    known_threshold: u64,
    limit: usize,
    storing: bool,
    after: Seq<RankedCandidate>,
)
    requires
        scope.well_formed(),
        scope.keeps_ceiling() || storing,
        search_progress::keeps_limit(best, limit),
        is_of(candidate, scope, look, working_directory),
        seen_threshold <= results::threshold_of(best, limit),
        known_threshold <= results::threshold_of(best, limit),
        is_offered(
            scope,
            best,
            Some(candidate),
            seen_threshold,
            known_threshold,
            limit,
            storing,
            after,
        ),
    ensures
        after == ordering::offered(best, candidate, limit),
        search_progress::is_of_folders(candidate),
{
    let text_score = look_fit(scope, look, working_directory)->0;
    let item = choose|item: LaunchItem| #[trigger]
        scan::is_item_at(
            item,
            look.entry.path@,
            Some(look.entry.file_name@),
            look.entry.is_dir,
            look.folder.context.root,
            look.directory,
            streaming::known_time(scope, look.entry),
        ) && candidate == scope.candidate_of(item, text_score);
    assert(streaming::candidate_bound(scope, candidate) == scope.bound_of(item, text_score));
    if !storing && results::is_hopeless(scope.bound_of(item, text_score), seen_threshold as int) {
        results::lemma_pruning_is_safe(
            best,
            item,
            scope.prepared.folded_search_text@,
            scope.spec.scoring_time_unix_seconds,
            text_score,
            scope.prepared,
            collect::history_score(scope.history, text::fold(item.path@)),
            false,
            scope.scoring,
            limit,
        );
        search_progress::lemma_unentered_stays(best, candidate, limit);
    } else if search_progress::turned_away(candidate, known_threshold, storing) {
        results::lemma_pruned_never_enters(best, candidate, candidate.score, limit);
        search_progress::lemma_unentered_stays(best, candidate, limit);
    }
}

proof fn lemma_offered_stays_of_folders(
    best: Seq<RankedCandidate>,
    candidate: RankedCandidate,
    limit: usize,
)
    requires
        search_progress::keeps_limit(best, limit),
        are_of_folders(best),
        search_progress::is_of_folders(candidate),
    ensures
        are_of_folders(ordering::offered(best, candidate, limit)),
{
    let after = ordering::offered(best, candidate, limit);
    if limit != usize::MAX {
        ordering::lemma_place(best, candidate.rank_key());
        let p = ordering::place_of(best, candidate.rank_key());
        let all = ordering::put(best, candidate);
        assert forall|i: int| 0 <= i < after.len() implies search_progress::is_of_folders(
            #[trigger] after[i],
        ) by {
            assert(after[i] == all[i]);
            if i < p {
                assert(all[i] == best[i]);
            } else if i > p {
                assert(all[i] == best[i - 1]);
            }
        }
    } else {
        assert forall|i: int| 0 <= i < after.len() implies search_progress::is_of_folders(
            #[trigger] after[i],
        ) by {
            if i < best.len() {
                assert(after[i] == best[i]);
            }
        }
    }
}

/// A worker that looks at something new, by one threshold, and offers what it finds, by
/// another, takes its turn.
pub proof fn lemma_worker_takes_its_turn<F: FnOnce() -> Option<i64>>(
    scope: SearchScope,
    look: Look,
    working_directory: Seq<char>,
    result: Option<PreparedSearchResult>,
    seen: Set<Seq<char>>,
    seen_after: Set<Seq<char>>,
    seen_threshold: u64,
    known_threshold: u64,
    load: F,
    best: Seq<RankedCandidate>,
    after: Seq<RankedCandidate>,
    limit: usize,
    storing: bool,
) -> (candidate: RankedCandidate)
    requires
        look_fit(scope, look, working_directory) is Some,
        !seen.contains(text::fold(look.entry.path@)),
        forall|time: Option<i64>|
            call_ensures(load, (), time) ==> time == look.entry.modified_at,
        scan::considers(
            result,
            scope,
            look.entry.path@,
            Some(look.entry.file_name@),
            look.entry.is_dir,
            look.folder.context.root,
            look.directory,
            seen,
            seen_after,
            if storing {
                0
            } else {
                seen_threshold as int
            },
            load,
        ),
        after == (match result {
            None => best,
            Some(found) => if search_progress::turned_away(
                found.candidate,
                known_threshold,
                storing,
            ) {
                best
            } else {
                ordering::offered(best, found.candidate, limit)
            },
        }),
    ensures
        is_found(Some(candidate), scope, look, working_directory),
        is_offered(
            scope,
            best,
            Some(candidate),
            seen_threshold,
            known_threshold,
            limit,
            storing,
            after,
        ),
{
    let text_score = look_fit(scope, look, working_directory)->0;
    let threshold = if storing {
        0
    } else {
        seen_threshold as int
    };
    let (item, time) = choose|item: LaunchItem, time: Option<i64>|
        #![trigger scan::is_item_at(item, look.entry.path@, Some(look.entry.file_name@), look.entry.is_dir, look.folder.context.root, look.directory, time)]
        scan::is_item_at(
            item,
            look.entry.path@,
            Some(look.entry.file_name@),
            look.entry.is_dir,
            look.folder.context.root,
            look.directory,
            time,
        ) && scan::can_load(scope, load, time) && scan::becomes(
            result,
            scope,
            item,
            text_score,
            threshold,
        );
    assert(time == streaming::known_time(scope, look.entry));
    let candidate = scope.candidate_of(item, text_score);
    assert(streaming::candidate_bound(scope, candidate) == scope.bound_of(item, text_score));
    candidate
}

/// However many workers there are, and whatever thresholds they go by, the best are those
/// that offering everything that was found would leave.
pub proof fn lemma_workers_lose_nothing(
    scope: SearchScope,
    looks: Seq<Look>,
    working_directory: Seq<char>,
    bests: Seq<Seq<RankedCandidate>>,
    found: Seq<Option<RankedCandidate>>,
    seen_thresholds: Seq<u64>,
    known_thresholds: Seq<u64>,
    limit: usize,
    storing: bool,
    n: int,
)
    requires
        scope.well_formed(),
        scope.keeps_ceiling() || storing,
        are_found(found, scope, looks, working_directory),
        take_turns(scope, bests, found, seen_thresholds, known_thresholds, limit, storing),
        search_progress::keeps_limit(bests[0], limit),
        are_of_folders(bests[0]),
        0 <= n <= found.len(),
    ensures
        bests[n] == streaming::offered_some(bests[0], found, limit, n),
        search_progress::keeps_limit(bests[n], limit),
        are_of_folders(bests[n]),
        forall|j: int|
            0 <= j <= n ==> results::threshold_of(#[trigger] bests[j], limit)
                <= results::threshold_of(bests[n], limit),
    decreases n,
{
    if n > 0 {
        let i = n - 1;
        lemma_workers_lose_nothing(
            scope,
            looks,
            working_directory,
            bests,
            found,
            seen_thresholds,
            known_thresholds,
            limit,
            storing,
            i,
        );
        assert(is_found(found[i], scope, looks[i], working_directory));
        assert(is_offered(
            scope,
            bests[i],
            found[i],
            seen_thresholds[i],
            known_thresholds[i],
            limit,
            storing,
            bests[i + 1],
        ));
        if let Some(candidate) = found[i] {
            assert(0 <= results::threshold_of(bests[i], limit));
            lemma_left_out_would_not_enter(
                scope,
                bests[i],
                candidate,
                looks[i],
                working_directory,
                seen_thresholds[i],
                known_thresholds[i],
                limit,
                storing,
                bests[i + 1],
            );
            search_progress::lemma_threshold_grows(bests[i], candidate, limit);
            lemma_offered_stays_of_folders(bests[i], candidate, limit);
        }
    }
}


// ---------------------------------------------------------------------------
// One and many
// ---------------------------------------------------------------------------

/// The keys of all that looks find.
pub open spec fn keys_found(scope: SearchScope, looks: Seq<Look>, working_directory: Seq<char>) -> Seq<
    RankKey,
>
    decreases looks.len(),
{
    if looks.len() == 0 {
        Seq::empty()
    } else {
        let before = keys_found(scope, looks.drop_last(), working_directory);
        if look_fit(scope, looks.last(), working_directory) is Some {
            before.push(look_key(scope, looks.last(), working_directory))
        } else {
            before
        }
    }
}

/// How many looks count: those that are not passed over.
pub open spec fn looks_counted(looks: Seq<Look>, working_directory: Seq<char>) -> int
    decreases looks.len(),
{
    if looks.len() == 0 {
        0
    } else {
        looks_counted(looks.drop_last(), working_directory) + (if streaming::passed_over(
            looks.last().entry,
            looks.last().folder,
            working_directory,
        ) {
            0int
        } else {
            1
        })
    }
}

proof fn lemma_present_keys(
    found: Seq<Option<RankedCandidate>>,
    scope: SearchScope,
    looks: Seq<Look>,
    working_directory: Seq<char>,
    n: int,
)
    requires
        are_found(found, scope, looks, working_directory),
        0 <= n <= looks.len(),
    ensures
        ordering::keys_of(streaming::present(found, n)) == keys_found(
            scope,
            looks.take(n),
            working_directory,
        ),
    decreases n,
{
    if n == 0 {
        assert(ordering::keys_of(streaming::present(found, 0)) =~= Seq::<RankKey>::empty());
    } else {
        lemma_present_keys(found, scope, looks, working_directory, n - 1);
        let look = looks[n - 1];
        assert(looks.take(n).drop_last() =~= looks.take(n - 1));
        assert(looks.take(n).last() == look);
        assert(is_found(found[n - 1], scope, look, working_directory));
        if let Some(candidate) = found[n - 1] {
            let chosen = choose|c: RankedCandidate| is_of(c, scope, look, working_directory);
            assert(is_of(candidate, scope, look, working_directory));
            lemma_one_look_one_key(candidate, chosen, scope, look, working_directory);
            assert(ordering::keys_of(streaming::present(found, n)) =~= ordering::keys_of(
                streaming::present(found, n - 1),
            ).push(candidate.rank_key()));
        }
    }
}

/// One look more or less, wherever it stands.
proof fn lemma_without_a_look(
    scope: SearchScope,
    looks: Seq<Look>,
    working_directory: Seq<char>,
    i: int,
)
    requires
        0 <= i < looks.len(),
    ensures
        keys_found(scope, looks, working_directory).to_multiset() == (if look_fit(
            scope,
            looks[i],
            working_directory,
        ) is Some {
            keys_found(scope, looks.remove(i), working_directory).to_multiset().insert(
                look_key(scope, looks[i], working_directory),
            )
        } else {
            keys_found(scope, looks.remove(i), working_directory).to_multiset()
        }),
        looks_counted(looks, working_directory) == looks_counted(looks.remove(i), working_directory)
            + (if streaming::passed_over(looks[i].entry, looks[i].folder, working_directory) {
            0int
        } else {
            1
        }),
    decreases looks.len(),
{
    let rest = looks.drop_last();
    let front = keys_found(scope, rest, working_directory);
    front.to_multiset_ensures();
    if i == looks.len() - 1 {
        assert(looks.remove(i) =~= rest);
    } else {
        lemma_without_a_look(scope, rest, working_directory, i);
        let less = looks.remove(i);
        assert(less.drop_last() =~= rest.remove(i));
        assert(less.last() == looks.last());
        keys_found(scope, rest.remove(i), working_directory).to_multiset_ensures();
        assert(keys_found(scope, looks, working_directory).to_multiset() =~= (if look_fit(
            scope,
            looks[i],
            working_directory,
        ) is Some {
            keys_found(scope, less, working_directory).to_multiset().insert(
                look_key(scope, looks[i], working_directory),
            )
        } else {
            keys_found(scope, less, working_directory).to_multiset()
        }));
    }
}

/// The order of looks changes neither what they find nor how many count.
proof fn lemma_order_of_looks_is_free(
    scope: SearchScope,
    a: Seq<Look>,
    b: Seq<Look>,
    working_directory: Seq<char>,
)
    requires
        a.to_multiset() == b.to_multiset(),
    ensures
        keys_found(scope, a, working_directory).to_multiset() == keys_found(
            scope,
            b,
            working_directory,
        ).to_multiset(),
        looks_counted(a, working_directory) == looks_counted(b, working_directory),
    decreases a.len(),
{
    a.to_multiset_ensures();
    b.to_multiset_ensures();
    if a.len() == 0 {
        assert(b =~= a);
    } else {
        let n = a.len() - 1;
        let x = a[n];
        assert(a.contains(x));
        assert(b.to_multiset().count(x) > 0);
        let i = choose|i: int| 0 <= i < b.len() && b[i] == x;
        assert(a.remove(n).to_multiset() =~= b.remove(i).to_multiset());
        lemma_order_of_looks_is_free(scope, a.remove(n), b.remove(i), working_directory);
        lemma_without_a_look(scope, a, working_directory, n);
        lemma_without_a_look(scope, b, working_directory, i);
    }
}

/// One worker that looks at everything alone and many that share the looks, in whatever
/// order and by whatever thresholds the best had at some time, end with the same ranks in
/// the same places.
pub proof fn lemma_one_worker_and_many_agree(
    scope: SearchScope,
    working_directory: Seq<char>,
    begun: Seq<RankedCandidate>,
    alone_looks: Seq<Look>,
    alone_found: Seq<Option<RankedCandidate>>,
    looks: Seq<Look>,
    bests: Seq<Seq<RankedCandidate>>,
    found: Seq<Option<RankedCandidate>>,
    seen_thresholds: Seq<u64>,
    known_thresholds: Seq<u64>,
    limit: usize,
    storing: bool,
)
    requires
        limit != usize::MAX,
        scope.well_formed(),
        scope.keeps_ceiling() || storing,
        alone_looks.to_multiset() == looks.to_multiset(),
        are_found(alone_found, scope, alone_looks, working_directory),
        are_found(found, scope, looks, working_directory),
        take_turns(scope, bests, found, seen_thresholds, known_thresholds, limit, storing),
        bests[0] == ordering::offered_all(begun, limit),
        are_of_folders(bests[0]),
    ensures
        ordering::keys_of(
            streaming::offered_some(
                ordering::offered_all(begun, limit),
                alone_found,
                limit,
                alone_found.len() as int,
            ),
        ) == ordering::keys_of(bests.last()),
        looks_counted(alone_looks, working_directory) == looks_counted(looks, working_directory),
{
    let n = found.len() as int;
    let m = alone_found.len() as int;
    lemma_workers_start(begun, limit);
    lemma_workers_lose_nothing(
        scope,
        looks,
        working_directory,
        bests,
        found,
        seen_thresholds,
        known_thresholds,
        limit,
        storing,
        n,
    );
    streaming::lemma_scan_offers_all(begun, found, limit, n);
    streaming::lemma_scan_offers_all(begun, alone_found, limit, m);
    lemma_order_of_looks_is_free(scope, alone_looks, looks, working_directory);
    lemma_present_keys(alone_found, scope, alone_looks, working_directory, m);
    lemma_present_keys(found, scope, looks, working_directory, n);
    assert(alone_looks.take(m) =~= alone_looks);
    assert(looks.take(n) =~= looks);
    let a = streaming::present(alone_found, m);
    let b = streaming::present(found, n);
    let first = ordering::keys_of(begun);
    assert(ordering::keys_of(begun + a) =~= first + ordering::keys_of(a));
    assert(ordering::keys_of(begun + b) =~= first + ordering::keys_of(b));
    vstd::seq_lib::lemma_multiset_commutative(first, ordering::keys_of(a));
    vstd::seq_lib::lemma_multiset_commutative(first, ordering::keys_of(b));
    ordering::lemma_offering_goes_by_keys(begun + a, begun + b, limit);
}


/// Nothing that is ranked ties with anything else.
pub open spec fn nothing_ties(
    scope: SearchScope,
    begun: Seq<RankedCandidate>,
    looks: Seq<Look>,
    working_directory: Seq<char>,
) -> bool {
    &&& forall|i: int, j: int|
        #![trigger begun[i], begun[j]]
        0 <= i < j < begun.len() ==> begun[i].rank_key() != begun[j].rank_key()
    &&& forall|i: int, j: int|
        #![trigger looks[i], looks[j]]
        0 <= i < j < looks.len() && look_fit(scope, looks[i], working_directory) is Some && look_fit(
            scope,
            looks[j],
            working_directory,
        ) is Some ==> look_key(scope, looks[i], working_directory) != look_key(
            scope,
            looks[j],
            working_directory,
        )
    &&& forall|i: int, j: int|
        #![trigger begun[i], looks[j]]
        0 <= i < begun.len() && 0 <= j < looks.len() && look_fit(
            scope,
            looks[j],
            working_directory,
        ) is Some ==> begun[i].rank_key() != look_key(scope, looks[j], working_directory)
}

/// Two candidates are one and the same, or come of one look.
pub open spec fn are_one(
    a: RankedCandidate,
    b: RankedCandidate,
    scope: SearchScope,
    begun: Seq<RankedCandidate>,
    looks: Seq<Look>,
    working_directory: Seq<char>,
) -> bool {
    ||| a == b && begun.contains(a)
    ||| exists|k: int|
        0 <= k < looks.len() && is_of(a, scope, #[trigger] looks[k], working_directory) && is_of(
            b,
            scope,
            looks[k],
            working_directory,
        )
}

proof fn lemma_present_is_found(
    found: Seq<Option<RankedCandidate>>,
    candidate: RankedCandidate,
    n: int,
) -> (k: int)
    requires
        0 <= n <= found.len(),
        streaming::present(found, n).contains(candidate),
    ensures
        0 <= k < n,
        found[k] == Some(candidate),
    decreases n,
{
    let all = streaming::present(found, n);
    let i = choose|i: int| 0 <= i < all.len() && all[i] == candidate;
    if n > 0 {
        let before = streaming::present(found, n - 1);
        if i < before.len() {
            assert(before[i] == candidate);
            assert(before.contains(candidate));
            lemma_present_is_found(found, candidate, n - 1)
        } else {
            n - 1
        }
    } else {
        0
    }
}

/// Where something in the best comes from: it was there from the start, or was found by a
/// look.
proof fn lemma_where_from(
    scope: SearchScope,
    working_directory: Seq<char>,
    begun: Seq<RankedCandidate>,
    looks: Seq<Look>,
    found: Seq<Option<RankedCandidate>>,
    limit: usize,
    i: int,
) -> (k: int)
    requires
        limit != usize::MAX,
        are_found(found, scope, looks, working_directory),
        0 <= i < ordering::offered_all(
            begun + streaming::present(found, found.len() as int),
            limit,
        ).len(),
    ensures
        ({
            let x = ordering::offered_all(
                begun + streaming::present(found, found.len() as int),
                limit,
            )[i];
            ||| k == -1 && begun.contains(x)
            ||| 0 <= k < looks.len() && is_of(x, scope, looks[k], working_directory)
                && x.rank_key() == look_key(scope, looks[k], working_directory)
        }),
{
    let n = found.len() as int;
    let all = begun + streaming::present(found, n);
    ordering::lemma_offered_is_from(all, limit, i);
    let x = ordering::offered_all(all, limit)[i];
    let p = choose|p: int| 0 <= p < all.len() && all[p] == x;
    if p < begun.len() {
        assert(begun[p] == x);
        -1
    } else {
        assert(streaming::present(found, n)[p - begun.len()] == x);
        assert(streaming::present(found, n).contains(x));
        let k = lemma_present_is_found(found, x, n);
        assert(is_found(found[k], scope, looks[k], working_directory));
        let chosen = choose|c: RankedCandidate| is_of(c, scope, looks[k], working_directory);
        lemma_one_look_one_key(x, chosen, scope, looks[k], working_directory);
        k
    }
}

/// Where nothing ties, one worker alone and many together end with the same candidates in
/// the same places.
pub proof fn lemma_one_worker_and_many_find_the_same(
    scope: SearchScope,
    working_directory: Seq<char>,
    begun: Seq<RankedCandidate>,
    alone_looks: Seq<Look>,
    alone_found: Seq<Option<RankedCandidate>>,
    looks: Seq<Look>,
    bests: Seq<Seq<RankedCandidate>>,
    found: Seq<Option<RankedCandidate>>,
    seen_thresholds: Seq<u64>,
    known_thresholds: Seq<u64>,
    limit: usize,
    storing: bool,
)
    requires
        limit != usize::MAX,
        scope.well_formed(),
        scope.keeps_ceiling() || storing,
        alone_looks.to_multiset() == looks.to_multiset(),
        are_found(alone_found, scope, alone_looks, working_directory),
        are_found(found, scope, looks, working_directory),
        take_turns(scope, bests, found, seen_thresholds, known_thresholds, limit, storing),
        bests[0] == ordering::offered_all(begun, limit),
        are_of_folders(bests[0]),
        nothing_ties(scope, begun, looks, working_directory),
    ensures
        ({
            let alone = streaming::offered_some(
                ordering::offered_all(begun, limit),
                alone_found,
                limit,
                alone_found.len() as int,
            );
            &&& alone.len() == bests.last().len()
            &&& forall|i: int|
                0 <= i < alone.len() ==> are_one(
                    #[trigger] alone[i],
                    bests.last()[i],
                    scope,
                    begun,
                    looks,
                    working_directory,
                )
        }),
{
    lemma_one_worker_and_many_agree(
        scope,
        working_directory,
        begun,
        alone_looks,
        alone_found,
        looks,
        bests,
        found,
        seen_thresholds,
        known_thresholds,
        limit,
        storing,
    );
    let n = found.len() as int;
    let m = alone_found.len() as int;
    let alone = streaming::offered_some(
        ordering::offered_all(begun, limit),
        alone_found,
        limit,
        m,
    );
    let many = bests.last();
    lemma_workers_start(begun, limit);
    lemma_workers_lose_nothing(
        scope,
        looks,
        working_directory,
        bests,
        found,
        seen_thresholds,
        known_thresholds,
        limit,
        storing,
        n,
    );
    streaming::lemma_scan_offers_all(begun, found, limit, n);
    streaming::lemma_scan_offers_all(begun, alone_found, limit, m);
    assert(ordering::keys_of(alone).len() == ordering::keys_of(many).len());
    alone_looks.to_multiset_ensures();
    looks.to_multiset_ensures();
    assert forall|i: int| 0 <= i < alone.len() implies are_one(
        #[trigger] alone[i],
        many[i],
        scope,
        begun,
        looks,
        working_directory,
    ) by {
        assert(ordering::keys_of(alone)[i] == ordering::keys_of(many)[i]);
        let a = alone[i];
        let b = many[i];
        assert(a.rank_key() == b.rank_key());
        let p = lemma_where_from(
            scope,
            working_directory,
            begun,
            alone_looks,
            alone_found,
            limit,
            i,
        );
        let q = lemma_where_from(scope, working_directory, begun, looks, found, limit, i);
        if p >= 0 {
            let look = alone_looks[p];
            assert(alone_looks.contains(look));
            assert(looks.to_multiset().count(look) > 0);
            let k = choose|k: int| 0 <= k < looks.len() && looks[k] == look;
            assert(look_fit(scope, looks[k], working_directory) is Some);
            if q >= 0 {
                assert(look_fit(scope, looks[q], working_directory) is Some);
                assert(k == q);
                assert(is_of(a, scope, looks[k], working_directory));
            } else {
                let s = choose|s: int| 0 <= s < begun.len() && begun[s] == b;
                assert(begun[s].rank_key() != look_key(scope, looks[k], working_directory));
            }
        } else {
            let s = choose|s: int| 0 <= s < begun.len() && begun[s] == a;
            if q >= 0 {
                assert(begun[s].rank_key() != look_key(scope, looks[q], working_directory));
            } else {
                let t = choose|t: int| 0 <= t < begun.len() && begun[t] == b;
                assert(s == t);
            }
        }
    }
}

proof fn lemma_workers_start(begun: Seq<RankedCandidate>, limit: usize)
    requires
        limit != usize::MAX,
    ensures
        search_progress::keeps_limit(ordering::offered_all(begun, limit), limit),
{
    ordering::lemma_offered_all_is_ordered(begun, limit);
    ordering::lemma_ordered_in_order(begun);
    let o = ordering::ordered(begun);
    let f = ordering::offered_all(begun, limit);
    assert forall|i: int, j: int|
        #![trigger f[i], f[j]]
        0 <= i < j < f.len() implies !ordering::key_before(f[j].rank_key(), f[i].rank_key()) by {
        assert(f[i] == o[i] && f[j] == o[j]);
    }
}

// ---------------------------------------------------------------------------
// What a scan of a directory is to a run
// ---------------------------------------------------------------------------

/// The looks at the entries of a directory.
pub open spec fn looks_at(
    entries: Seq<FoundEntry>,
    folder: ScanFolder,
    directory: DirectoryScanContext,
) -> Seq<Look> {
    Seq::new(entries.len(), |i: int| Look { entry: entries[i], folder, directory })
}

/// Nothing that fits was seen before, and no two of them have one path.
pub open spec fn all_new(
    scope: SearchScope,
    looks: Seq<Look>,
    working_directory: Seq<char>,
    seen: Set<Seq<char>>,
) -> bool {
    &&& forall|i: int|
        0 <= i < looks.len() && look_fit(scope, #[trigger] looks[i], working_directory) is Some
            ==> !seen.contains(text::fold(looks[i].entry.path@))
    &&& forall|i: int, j: int|
        #![trigger looks[i], looks[j]]
        0 <= i < j < looks.len() && look_fit(scope, looks[i], working_directory) is Some && look_fit(
            scope,
            looks[j],
            working_directory,
        ) is Some ==> text::fold(looks[i].entry.path@) != text::fold(looks[j].entry.path@)
}

proof fn lemma_seen_is_known(
    scope: SearchScope,
    seen: Set<Seq<char>>,
    entries: Seq<FoundEntry>,
    folder: ScanFolder,
    directory: DirectoryScanContext,
    working_directory: Seq<char>,
    n: int,
    key: Seq<char>,
)
    requires
        0 <= n <= entries.len(),
        streaming::seen_after(
            scope,
            seen,
            entries,
            folder,
            directory,
            working_directory,
            n,
        ).contains(key),
    ensures
        seen.contains(key) || exists|j: int|
            0 <= j < n && streaming::entry_fit(
                scope,
                #[trigger] entries[j],
                folder,
                directory,
                working_directory,
            ) is Some && text::fold(entries[j].path@) == key,
    decreases n,
{
    if n > 0 {
        let before = streaming::seen_after(
            scope,
            seen,
            entries,
            folder,
            directory,
            working_directory,
            n - 1,
        );
        if before.contains(key) {
            lemma_seen_is_known(
                scope,
                seen,
                entries,
                folder,
                directory,
                working_directory,
                n - 1,
                key,
            );
        } else {
            assert(text::fold(entries[n - 1].path@) == key);
        }
    }
}

/// A scan of new entries finds what looks at them find, and counts as many.
pub proof fn lemma_scan_is_looking(
    taken: Seq<Option<RankedCandidate>>,
    scope: SearchScope,
    entries: Seq<FoundEntry>,
    folder: ScanFolder,
    directory: DirectoryScanContext,
    working_directory: Seq<char>,
    seen: Set<Seq<char>>,
)
    requires
        streaming::found_in(
            taken,
            scope,
            entries,
            folder,
            directory,
            working_directory,
            seen,
            entries.len() as int,
        ),
        all_new(scope, looks_at(entries, folder, directory), working_directory, seen),
    ensures
        are_found(taken, scope, looks_at(entries, folder, directory), working_directory),
        streaming::looked_at(entries, folder, working_directory, entries.len() as int)
            == looks_counted(looks_at(entries, folder, directory), working_directory),
{
    let looks = looks_at(entries, folder, directory);
    assert forall|i: int| 0 <= i < looks.len() implies is_found(
        #[trigger] taken[i],
        scope,
        looks[i],
        working_directory,
    ) by {
        let known = streaming::seen_after(
            scope,
            seen,
            entries,
            folder,
            directory,
            working_directory,
            i,
        );
        assert(streaming::is_taken(
            taken[i],
            scope,
            entries[i],
            folder,
            directory,
            working_directory,
            known,
        ));
        let key = text::fold(entries[i].path@);
        if look_fit(scope, looks[i], working_directory) is Some && known.contains(key) {
            lemma_seen_is_known(
                scope,
                seen,
                entries,
                folder,
                directory,
                working_directory,
                i,
                key,
            );
            if !seen.contains(key) {
                let j = choose|j: int|
                    0 <= j < i && streaming::entry_fit(
                        scope,
                        #[trigger] entries[j],
                        folder,
                        directory,
                        working_directory,
                    ) is Some && text::fold(entries[j].path@) == key;
                assert(look_fit(scope, looks[j], working_directory) is Some);
            }
        }
    }
    lemma_counted_alike(entries, folder, directory, working_directory, entries.len() as int);
    assert(looks.take(looks.len() as int) =~= looks);
}

proof fn lemma_counted_alike(
    entries: Seq<FoundEntry>,
    folder: ScanFolder,
    directory: DirectoryScanContext,
    working_directory: Seq<char>,
    n: int,
)
    requires
        0 <= n <= entries.len(),
    ensures
        streaming::looked_at(entries, folder, working_directory, n) == looks_counted(
            looks_at(entries, folder, directory).take(n),
            working_directory,
        ),
    decreases n,
{
    if n > 0 {
        lemma_counted_alike(entries, folder, directory, working_directory, n - 1);
        let looks = looks_at(entries, folder, directory);
        assert(looks.take(n).drop_last() =~= looks.take(n - 1));
    }
}

/// A run goes on from directory to directory as if it were one scan.
pub proof fn lemma_scans_join(
    best: Seq<RankedCandidate>,
    first: Seq<Option<RankedCandidate>>,
    second: Seq<Option<RankedCandidate>>,
    limit: usize,
    n: int,
)
    requires
        0 <= n <= second.len(),
    ensures
        streaming::offered_some(best, first + second, limit, first.len() + n)
            == streaming::offered_some(
            streaming::offered_some(best, first, limit, first.len() as int),
            second,
            limit,
            n,
        ),
    decreases n,
{
    if n == 0 {
        lemma_scan_front(best, first, second, limit, first.len() as int);
    } else {
        lemma_scans_join(best, first, second, limit, n - 1);
        assert((first + second)[first.len() + n - 1] == second[n - 1]);
    }
}

proof fn lemma_scan_front(
    best: Seq<RankedCandidate>,
    first: Seq<Option<RankedCandidate>>,
    second: Seq<Option<RankedCandidate>>,
    limit: usize,
    n: int,
)
    requires
        0 <= n <= first.len(),
    ensures
        streaming::offered_some(best, first + second, limit, n) == streaming::offered_some(
            best,
            first,
            limit,
            n,
        ),
    decreases n,
{
    if n > 0 {
        lemma_scan_front(best, first, second, limit, n - 1);
        assert((first + second)[n - 1] == first[n - 1]);
    }
}

/// A count after parts were added to it, each up to the largest number.
pub open spec fn counted_up(start: int, parts: Seq<int>) -> int
    decreases parts.len(),
{
    if parts.len() == 0 {
        start
    } else {
        arith::min_int(counted_up(start, parts.drop_last()) + parts.last(), usize::MAX as int)
    }
}

/// The sum of parts.
pub open spec fn sum_of(parts: Seq<int>) -> int
    decreases parts.len(),
{
    if parts.len() == 0 {
        0
    } else {
        sum_of(parts.drop_last()) + parts.last()
    }
}

/// In whatever parts workers tell how much they looked at, the count is that of all.
pub proof fn lemma_counts_add_up(start: int, parts: Seq<int>)
    requires
        0 <= start <= usize::MAX,
        forall|i: int| 0 <= i < parts.len() ==> 0 <= #[trigger] parts[i],
    ensures
        counted_up(start, parts) == arith::min_int(start + sum_of(parts), usize::MAX as int),
        sum_of(parts) >= 0,
    decreases parts.len(),
{
    if parts.len() > 0 {
        let front = parts.drop_last();
        assert forall|i: int| 0 <= i < front.len() implies 0 <= #[trigger] front[i] by {
            assert(front[i] == parts[i]);
        }
        lemma_counts_add_up(start, front);
        assert(0 <= parts[parts.len() - 1]);
    }
}


} // verus!
