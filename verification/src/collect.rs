//! Results collected from items that are at hand and from items launched before.

use crate::breakdown;
use crate::explanation;
use crate::items;
use crate::keyset::KeySet;
use crate::ordering;
use crate::ordering::Ranked;
use crate::places;
use crate::recents;
use crate::results;
use crate::results::{LaunchTarget, SearchResult};
use crate::text;
use crate::types;
use crate::types::{
    IndexRoot, LaunchItem, ResultRankingKind, ScoringConfig, SearchQueryMode, SearchQuerySpec,
};
use crate::winpath;
use crate::wording::Wording;
use vstd::prelude::*;

verus! {

// ---------------------------------------------------------------------------
// History
// ---------------------------------------------------------------------------

/// What is known of an item launched before: the form in which its path is compared,
/// the score that counts for it, and its score as it was noted, where that is above zero.
#[derive(Debug, PartialEq, Eq)]
pub struct HistoryEntry {
    pub key: String,
    pub score: i32,
    pub raw: Option<String>,
}

/// What is known of items launched before.
#[derive(Debug, PartialEq, Eq)]
pub struct HistoryTable {
    pub entries: Vec<HistoryEntry>,
}

/// The last of the first `n` entries with a key.
pub open spec fn entry_for(entries: Seq<HistoryEntry>, key: Seq<char>, n: int) -> Option<int>
    decreases n,
{
    if n <= 0 {
        None
    } else if entries[n - 1].key@ == key {
        Some(n - 1)
    } else {
        entry_for(entries, key, n - 1)
    }
}

/// The score of a path; nothing counts for one that was never launched.
pub open spec fn history_score(table: HistoryTable, key: Seq<char>) -> i32 {
    match entry_for(table.entries@, key, table.entries@.len() as int) {
        Some(i) => table.entries@[i].score,
        None => 0,
    }
}

/// The score of a path as it was noted.
pub open spec fn history_raw(table: HistoryTable, key: Seq<char>) -> Option<Seq<char>> {
    match entry_for(table.entries@, key, table.entries@.len() as int) {
        Some(i) => text::optional(table.entries@[i].raw),
        None => None,
    }
}

impl HistoryTable {
    /// The score of a path and how it was noted.
    pub fn lookup(&self, key: &str) -> (r: (i32, Option<String>))
        ensures
            r.0 == history_score(*self, key@),
            text::optional(r.1) == history_raw(*self, key@),
    {
        let mut i: usize = self.entries.len();
        while i > 0
            invariant
                i <= self.entries.len(),
                entry_for(self.entries@, key@, self.entries@.len() as int) == entry_for(
                    self.entries@,
                    key@,
                    i as int,
                ),
            decreases i,
        {
            if text::same_text(self.entries[i - 1].key.as_str(), key) {
                return (self.entries[i - 1].score, types::copy_optional(&self.entries[i - 1].raw));
            }
            i -= 1;
        }
        (0, None)
    }
}

// ---------------------------------------------------------------------------
// Rows
// ---------------------------------------------------------------------------

/// The last of the first `n` items with a key.
pub open spec fn item_for(keys: Seq<Seq<char>>, key: Seq<char>, n: int) -> Option<int>
    decreases n,
{
    if n <= 0 {
        None
    } else if keys[n - 1] == key {
        Some(n - 1)
    } else {
        item_for(keys, key, n - 1)
    }
}

/// The forms in which the paths of items are compared.
pub open spec fn item_keys(items: Seq<LaunchItem>) -> Seq<Seq<char>> {
    Seq::new(items.len(), |i: int| text::fold(items[i].path@))
}

/// One of the rows has a key.
pub open spec fn rows_have(rows: Seq<(int, bool)>, keys: Seq<Seq<char>>, key: Seq<char>) -> bool {
    exists|i: int| 0 <= i < rows.len() && keys[(#[trigger] rows[i]).0] == key
}

/// The items of the first `n` entries of the history, each once.
pub open spec fn recent_rows(
    recent: Seq<Option<String>>,
    keys: Seq<Seq<char>>,
    n: int,
) -> Seq<(int, bool)>
    decreases n,
{
    if n <= 0 {
        Seq::empty()
    } else {
        let before = recent_rows(recent, keys, n - 1);
        match recent[n - 1] {
            None => before,
            Some(key) => match item_for(keys, key@, keys.len() as int) {
                None => before,
                Some(i) => if rows_have(before, keys, key@) {
                    before
                } else {
                    before.push((i, true))
                },
            },
        }
    }
}

/// Rows with those of the first `n` items that have none yet.
pub open spec fn all_rows(start: Seq<(int, bool)>, keys: Seq<Seq<char>>, n: int) -> Seq<(int, bool)>
    decreases n,
{
    if n <= 0 {
        start
    } else {
        let before = all_rows(start, keys, n - 1);
        if rows_have(before, keys, keys[n - 1]) {
            before
        } else {
            before.push((n - 1, false))
        }
    }
}

/// Rows as numbers.
pub open spec fn row_values(v: Seq<(usize, bool)>) -> Seq<(int, bool)> {
    Seq::new(v.len(), |i: int| (v[i].0 as int, v[i].1))
}

fn keys_of_items(items: &[LaunchItem]) -> (r: Vec<String>)
    ensures
        text::texts(r@) == item_keys(items@),
{
    let ghost all = item_keys(items@);
    let mut out: Vec<String> = Vec::new();
    let mut i: usize = 0;
    proof {
        assert(text::texts(out@) =~= all.take(0));
    }
    while i < items.len()
        invariant
            i <= items.len(),
            all == item_keys(items@),
            text::texts(out@) == all.take(i as int),
        decreases items.len() - i,
    {
        let ghost before = out@;
        let key = recents::recent_item_key(items[i].path.as_str());
        out.push(key);
        i += 1;
        proof {
            assert(text::texts(out@) =~= text::texts(before).push(key@));
            assert(text::texts(out@) =~= all.take(i as int));
        }
    }
    proof {
        assert(text::texts(out@) =~= all);
    }
    out
}

fn find_item(keys: &[String], key: &str) -> (r: Option<usize>)
    ensures
        match item_for(text::texts(keys@), key@, keys@.len() as int) {
            None => r is None,
            Some(i) => r matches Some(found) && found == i && i < keys@.len(),
        },
{
    let ghost all = text::texts(keys@);
    let mut i: usize = keys.len();
    while i > 0
        invariant
            i <= keys.len(),
            all == text::texts(keys@),
            item_for(all, key@, keys@.len() as int) == item_for(all, key@, i as int),
        decreases i,
    {
        proof {
            assert(all[i - 1] == keys@[i - 1]@);
        }
        if text::same_text(keys[i - 1].as_str(), key) {
            return Some(i - 1);
        }
        i -= 1;
    }
    None
}

fn have_key(rows: &[(usize, bool)], keys: &[String], key: &str) -> (r: bool)
    requires
        forall|i: int| 0 <= i < rows@.len() ==> (#[trigger] rows@[i]).0 < keys@.len(),
    ensures
        r == rows_have(row_values(rows@), text::texts(keys@), key@),
{
    let ghost all = text::texts(keys@);
    let ghost values = row_values(rows@);
    let mut i: usize = 0;
    while i < rows.len()
        invariant
            i <= rows.len(),
            all == text::texts(keys@),
            values == row_values(rows@),
            forall|k: int| 0 <= k < rows@.len() ==> (#[trigger] rows@[k]).0 < keys@.len(),
            forall|k: int| 0 <= k < i ==> all[(#[trigger] values[k]).0] != key@,
        decreases rows.len() - i,
    {
        proof {
            assert(rows@[i as int].0 < keys@.len());
            assert(values[i as int].0 == rows@[i as int].0);
        }
        if text::same_text(keys[rows[i].0].as_str(), key) {
            proof {
                assert(all[values[i as int].0] == key@);
            }
            return true;
        }
        i += 1;
    }
    false
}

fn collect_recent_rows(recent: &[Option<String>], keys: &[String]) -> (r: Vec<(usize, bool)>)
    ensures
        row_values(r@) == recent_rows(recent@, text::texts(keys@), recent@.len() as int),
        forall|i: int| 0 <= i < r@.len() ==> (#[trigger] r@[i]).0 < keys@.len(),
{
    let ghost all = text::texts(keys@);
    let mut rows: Vec<(usize, bool)> = Vec::new();
    let mut i: usize = 0;
    proof {
        assert(row_values(rows@) =~= Seq::<(int, bool)>::empty());
        assert(all.len() == keys@.len());
    }
    while i < recent.len()
        invariant
            i <= recent.len(),
            all == text::texts(keys@),
            all.len() == keys@.len(),
            row_values(rows@) == recent_rows(recent@, all, i as int),
            forall|k: int| 0 <= k < rows@.len() ==> (#[trigger] rows@[k]).0 < keys@.len(),
        decreases recent.len() - i,
    {
        if let Some(key) = &recent[i] {
            if let Some(at) = find_item(keys, key.as_str()) {
                if !have_key(rows.as_slice(), keys, key.as_str()) {
                    let ghost before = rows@;
                    rows.push((at, true));
                    proof {
                        assert(row_values(rows@) =~= row_values(before).push((at as int, true)));
                    }
                }
            }
        }
        i += 1;
    }
    rows
}

fn collect_all_rows(recent: &[Option<String>], keys: &[String]) -> (r: Vec<(usize, bool)>)
    ensures
        row_values(r@) == all_rows(
            recent_rows(recent@, text::texts(keys@), recent@.len() as int),
            text::texts(keys@),
            keys@.len() as int,
        ),
        forall|i: int| 0 <= i < r@.len() ==> (#[trigger] r@[i]).0 < keys@.len(),
{
    let ghost all = text::texts(keys@);
    let ghost start = recent_rows(recent@, all, recent@.len() as int);
    let mut rows = collect_recent_rows(recent, keys);
    let mut i: usize = 0;
    while i < keys.len()
        invariant
            i <= keys.len(),
            all == text::texts(keys@),
            row_values(rows@) == all_rows(start, all, i as int),
            forall|k: int| 0 <= k < rows@.len() ==> (#[trigger] rows@[k]).0 < keys@.len(),
        decreases keys.len() - i,
    {
        proof {
            assert(all[i as int] == keys@[i as int]@);
        }
        if !have_key(rows.as_slice(), keys, keys[i].as_str()) {
            let ghost before = rows@;
            rows.push((i, false));
            proof {
                assert(row_values(rows@) =~= row_values(before).push((i as int, false)));
            }
        }
        i += 1;
    }
    rows
}

// ---------------------------------------------------------------------------
// Items at hand
// ---------------------------------------------------------------------------

/// The row of an item that fits a query.
pub open spec fn fits(
    items: Seq<LaunchItem>,
    row: (int, bool),
    spec: SearchQuerySpec,
    history: HistoryTable,
    scoring: ScoringConfig,
) -> bool {
    let item = items[row.0];
    breakdown::components_for(
        item,
        spec,
        history_score(history, text::fold(item.path@)),
        scoring,
    ) is Some
}

/// The first `n` rows whose items fit.
pub open spec fn fitting_rows(
    items: Seq<LaunchItem>,
    rows: Seq<(int, bool)>,
    spec: SearchQuerySpec,
    history: HistoryTable,
    scoring: ScoringConfig,
    n: int,
) -> Seq<(int, bool)>
    decreases n,
{
    if n <= 0 {
        Seq::empty()
    } else {
        let before = fitting_rows(items, rows, spec, history, scoring, n - 1);
        if fits(items, rows[n - 1], spec, history, scoring) {
            before.push(rows[n - 1])
        } else {
            before
        }
    }
}

/// The result of a row.
pub open spec fn shows_row(
    result: SearchResult,
    items: Seq<LaunchItem>,
    row: (int, bool),
    spec: SearchQuerySpec,
    history: HistoryTable,
    scoring: ScoringConfig,
    wording: Wording,
) -> bool {
    let item = items[row.0];
    let key = text::fold(item.path@);
    match breakdown::components_for(item, spec, history_score(history, key), scoring) {
        None => false,
        Some(components) => results::materializes(
            result,
            results::heuristic_candidate(item, components, row.1),
            spec,
            history_raw(history, key),
            scoring,
            true,
            true,
            wording,
        ),
    }
}

/// Results, one for each row.
pub open spec fn show_rows(
    found: Seq<SearchResult>,
    items: Seq<LaunchItem>,
    rows: Seq<(int, bool)>,
    spec: SearchQuerySpec,
    history: HistoryTable,
    scoring: ScoringConfig,
    wording: Wording,
) -> bool {
    &&& found.len() == rows.len()
    &&& forall|i: int|
        0 <= i < found.len() ==> shows_row(
            #[trigger] found[i],
            items,
            rows[i],
            spec,
            history,
            scoring,
            wording,
        )
}

/// At least one.
pub open spec fn at_least_one(limit: usize) -> int {
    if limit == 0 {
        1
    } else {
        limit as int
    }
}

/// The results of the items that fit a query, in order and up to a limit. Items that
/// were launched before are looked at first, and none twice.
pub fn collect_fitting_items(
    items: &[LaunchItem],
    recent_keys: &[Option<String>],
    history: &HistoryTable,
    spec: &SearchQuerySpec,
    scoring: &ScoringConfig,
    effective_limit: usize,
    wording: &Wording,
) -> (r: Vec<SearchResult>)
    ensures
        ({
            let keys = item_keys(items@);
            let rows = all_rows(
                recent_rows(recent_keys@, keys, recent_keys@.len() as int),
                keys,
                keys.len() as int,
            );
            let fitting = fitting_rows(items@, rows, *spec, *history, *scoring, rows.len() as int);
            exists|found: Seq<SearchResult>| #[trigger]
                show_rows(found, items@, fitting, *spec, *history, *scoring, *wording) && r@
                    == ordering::first(
                    ordering::ordered(found),
                    at_least_one(effective_limit),
                )
        }),
{
    let keys = keys_of_items(items);
    let rows = collect_all_rows(recent_keys, keys.as_slice());
    let ghost values = row_values(rows@);
    let mut found: Vec<SearchResult> = Vec::new();
    let mut i: usize = 0;
    proof {
        assert(item_keys(items@).len() == keys@.len());
        assert(values.len() == rows@.len());
    }
    while i < rows.len()
        invariant
            i <= rows.len(),
            values == row_values(rows@),
            values.len() == rows@.len(),
            item_keys(items@).len() == keys@.len(),
            forall|k: int| 0 <= k < rows@.len() ==> (#[trigger] rows@[k]).0 < keys@.len(),
            text::texts(keys@) == item_keys(items@),
            show_rows(
                found@,
                items@,
                fitting_rows(items@, values, *spec, *history, *scoring, i as int),
                *spec,
                *history,
                *scoring,
                *wording,
            ),
        decreases rows.len() - i,
    {
        let ghost before = found@;
        let ghost fitting = fitting_rows(items@, values, *spec, *history, *scoring, i as int);
        let (at, from_history): (usize, bool) = rows[i];
        proof {
            assert(rows@[i as int].0 < keys@.len());
            assert(values[i as int] == (at as int, from_history));
            assert(item_keys(items@)[at as int] == keys@[at as int]@);
        }
        let (score, raw): (i32, Option<String>) = history.lookup(keys[at].as_str());
        if let Some(scored) = results::score_breakdown_with_config(
            &items[at],
            spec,
            score,
            &raw,
            scoring,
            from_history,
            wording,
        ) {
            found.push(scored.result);
            proof {
                let longer = fitting.push(values[i as int]);
                assert(longer == fitting_rows(
                    items@,
                    values,
                    *spec,
                    *history,
                    *scoring,
                    i + 1,
                ));
                assert forall|k: int| 0 <= k < found@.len() implies shows_row(
                    #[trigger] found@[k],
                    items@,
                    longer[k],
                    *spec,
                    *history,
                    *scoring,
                    *wording,
                ) by {
                    if k < before.len() {
                        assert(found@[k] == before[k]);
                        assert(longer[k] == fitting[k]);
                    }
                }
            }
        }
        i += 1;
    }
    let ghost unsorted = found@;
    let mut sorted = results::sort_search_results(found);
    let limit: usize = if effective_limit == 0 {
        1
    } else {
        effective_limit
    };
    let ghost whole = sorted@;
    if sorted.len() > limit {
        sorted.truncate(limit);
        proof {
            assert(sorted@ =~= whole.take(limit as int));
        }
    }
    proof {
        assert(show_rows(
            unsorted,
            items@,
            fitting_rows(items@, values, *spec, *history, *scoring, values.len() as int),
            *spec,
            *history,
            *scoring,
            *wording,
        ));
    }
    sorted
}

/// The result of an item in the order in which items were launched.
pub open spec fn shows_recent(result: SearchResult, item: LaunchItem, wording: Wording) -> bool {
    &&& result.title@ == item.title@
    &&& result.subtitle@ == item.subtitle@
    &&& result.target matches LaunchTarget::Path(path) && path@ == item.path@
    &&& result.is_dir == item.is_dir
    &&& result.from_history
    &&& !result.from_query_launch_rule
    &&& result.ranking_kind == ResultRankingKind::RecentOrder
    &&& result.explanation matches Some(e) && explanation::is_special(
        e,
        ResultRankingKind::RecentOrder,
        ""@,
        item.path@,
        match item.search_root {
            Some(root) => root@,
            None => ""@,
        },
        item.relative_depth,
        0,
        wording,
    )
    &&& result.display_score == 0
    &&& result.score_detail@ == "recent order"@
    &&& result.score == 0
}

fn recent_result(item: &LaunchItem, wording: &Wording) -> (r: SearchResult)
    ensures
        shows_recent(r, *item, *wording),
{
    SearchResult {
        title: item.title.clone(),
        subtitle: item.subtitle.clone(),
        target: LaunchTarget::Path(item.path.clone()),
        is_dir: item.is_dir,
        from_history: true,
        from_query_launch_rule: false,
        ranking_kind: ResultRankingKind::RecentOrder,
        explanation: Some(
            explanation::special_item_score_explanation(
                ResultRankingKind::RecentOrder,
                "",
                item,
                0,
                wording,
            ),
        ),
        display_score: 0,
        score_detail: "recent order".to_owned(),
        score: 0,
    }
}

/// The items that were launched before, in that order, each once and up to a limit.
pub fn collect_recent_order_results(
    items: &[LaunchItem],
    recent_keys: &[Option<String>],
    effective_limit: usize,
    wording: &Wording,
) -> (r: Vec<SearchResult>)
    ensures
        ({
            let keys = item_keys(items@);
            let rows = ordering::first(
                recent_rows(recent_keys@, keys, recent_keys@.len() as int),
                at_least_one(effective_limit),
            );
            &&& r@.len() == rows.len()
            &&& forall|i: int|
                0 <= i < rows.len() ==> shows_recent(#[trigger] r@[i], items@[rows[i].0], *wording)
        }),
{
    let keys = keys_of_items(items);
    let rows = collect_recent_rows(recent_keys, keys.as_slice());
    let ghost values = row_values(rows@);
    let limit: usize = if effective_limit == 0 {
        1
    } else {
        effective_limit
    };
    let count: usize = if rows.len() > limit {
        limit
    } else {
        rows.len()
    };
    let mut out: Vec<SearchResult> = Vec::new();
    let mut i: usize = 0;
    proof {
        assert(item_keys(items@).len() == keys@.len());
        assert(values.len() == rows@.len());
    }
    while i < count
        invariant
            i <= count <= rows.len(),
            values == row_values(rows@),
            item_keys(items@).len() == keys@.len(),
            forall|k: int| 0 <= k < rows@.len() ==> (#[trigger] rows@[k]).0 < keys@.len(),
            out@.len() == i,
            forall|k: int| 0 <= k < i ==> shows_recent(
                #[trigger] out@[k],
                items@[values[k].0],
                *wording,
            ),
        decreases count - i,
    {
        proof {
            assert(rows@[i as int].0 < keys@.len());
            assert(values[i as int].0 == rows@[i as int].0);
        }
        out.push(recent_result(&items[rows[i].0], wording));
        i += 1;
    }
    out
}

/// What a plugin offers.
#[derive(Debug, PartialEq, Eq)]
pub struct PluginOffer {
    pub title: String,
    pub subtitle: String,
    pub action: String,
    pub score: i32,
}

/// The result of what a plugin offers.
pub open spec fn shows_offer(
    result: SearchResult,
    offer: PluginOffer,
    query: Seq<char>,
    wording: Wording,
) -> bool {
    &&& result.title@ == offer.title@
    &&& result.subtitle@ == offer.subtitle@
    &&& result.target matches LaunchTarget::Plugin(action) && action@ == offer.action@
    &&& !result.is_dir
    &&& !result.from_history
    &&& !result.from_query_launch_rule
    &&& result.ranking_kind == ResultRankingKind::Plugin
    &&& result.explanation matches Some(e) && explanation::is_special(
        e,
        ResultRankingKind::Plugin,
        query,
        ""@,
        ""@,
        0,
        offer.score,
        wording,
    )
    &&& result.display_score == 0
    &&& result.score_detail@ == "plugin"@
    &&& result.score == offer.score
}

/// The results of what a plugin offers for a query, up to a limit.
pub fn collect_plugin_offers(
    offers: &[PluginOffer],
    query: &str,
    effective_limit: usize,
    wording: &Wording,
) -> (r: Vec<SearchResult>)
    ensures
        r@.len() == (if offers@.len() > at_least_one(effective_limit) {
            at_least_one(effective_limit)
        } else {
            offers@.len() as int
        }),
        forall|i: int|
            0 <= i < r@.len() ==> shows_offer(
                #[trigger] r@[i],
                offers@[i],
                text::trimmed(query@),
                *wording,
            ),
        r@.len() <= offers@.len(),
        offers@.len() <= effective_limit ==> r@.len() == offers@.len(),
        effective_limit > 0 ==> r@.len() <= effective_limit,
{
    let plain = text::trim_text(query);
    let limit: usize = if effective_limit == 0 {
        1
    } else {
        effective_limit
    };
    let count: usize = if offers.len() > limit {
        limit
    } else {
        offers.len()
    };
    let mut out: Vec<SearchResult> = Vec::new();
    let mut i: usize = 0;
    while i < count
        invariant
            i <= count <= offers.len(),
            plain@ == text::trimmed(query@),
            out@.len() == i,
            forall|k: int|
                0 <= k < i ==> shows_offer(
                    #[trigger] out@[k],
                    offers@[k],
                    text::trimmed(query@),
                    *wording,
                ),
        decreases count - i,
    {
        let offer = &offers[i];
        out.push(
            SearchResult {
                title: offer.title.clone(),
                subtitle: offer.subtitle.clone(),
                target: LaunchTarget::Plugin(offer.action.clone()),
                is_dir: false,
                from_history: false,
                from_query_launch_rule: false,
                ranking_kind: ResultRankingKind::Plugin,
                explanation: Some(
                    explanation::special_score_explanation(
                        ResultRankingKind::Plugin,
                        plain.as_str(),
                        "",
                        offer.score,
                        wording,
                    ),
                ),
                display_score: 0,
                score_detail: "plugin".to_owned(),
                score: offer.score,
            },
        );
        i += 1;
    }
    out
}

/// How a query over items at hand is answered.
pub open spec fn answered(
    r: Seq<SearchResult>,
    offers: Option<Vec<PluginOffer>>,
    items: Seq<LaunchItem>,
    recent_keys: Seq<Option<String>>,
    history: HistoryTable,
    spec: SearchQuerySpec,
    scoring: ScoringConfig,
    limit: int,
    wording: Wording,
) -> bool {
    let keys = item_keys(items);
    let recent = recent_rows(recent_keys, keys, recent_keys.len() as int);
    match offers {
        Some(list) => {
            &&& r.len() == (if list@.len() > limit {
                limit
            } else {
                list@.len() as int
            })
            &&& forall|i: int|
                0 <= i < r.len() ==> shows_offer(
                    #[trigger] r[i],
                    list@[i],
                    text::trimmed(spec.raw@),
                    wording,
                )
        },
        None => if spec.folded_search_text@.len() == 0 && spec.modifiers@.len() == 0 {
            let rows = ordering::first(recent, limit);
            &&& r.len() == rows.len()
            &&& forall|i: int|
                0 <= i < rows.len() ==> shows_recent(#[trigger] r[i], items[rows[i].0], wording)
        } else {
            let rows = all_rows(recent, keys, keys.len() as int);
            let fitting = fitting_rows(items, rows, spec, history, scoring, rows.len() as int);
            exists|found: Seq<SearchResult>| #[trigger]
                show_rows(
                    found,
                    items,
                    fitting,
                    spec,
                    history,
                    scoring,
                    wording,
                ) && r == ordering::first(
                    ordering::ordered(found),
                    limit,
                )
        },
    }
}

/// The results of a query over items at hand: what a plugin offers for it, else the
/// items launched before where the query is blank, else those that fit.
pub fn collect_results_with_config(
    offers: &Option<Vec<PluginOffer>>,
    items: &[LaunchItem],
    recent_keys: &[Option<String>],
    history: &HistoryTable,
    spec: &SearchQuerySpec,
    scoring: &ScoringConfig,
    effective_limit: usize,
    wording: &Wording,
) -> (r: Vec<SearchResult>)
    ensures
        answered(
            r@,
            *offers,
            items@,
            recent_keys@,
            *history,
            *spec,
            *scoring,
            at_least_one(effective_limit),
            *wording,
        ),
{
    match offers {
        Some(list) => collect_plugin_offers(
            list.as_slice(),
            spec.raw.as_str(),
            effective_limit,
            wording,
        ),
        None => {
            if spec.folded_search_text.as_str().is_empty() && spec.modifiers.len() == 0 {
                collect_recent_order_results(items, recent_keys, effective_limit, wording)
            } else {
                collect_fitting_items(
                    items,
                    recent_keys,
                    history,
                    spec,
                    scoring,
                    effective_limit,
                    wording,
                )
            }
        },
    }
}

/// No item stands in two rows.
pub proof fn lemma_rows_distinct(start: Seq<(int, bool)>, keys: Seq<Seq<char>>, n: int)
    requires
        0 <= n <= keys.len(),
        forall|i: int, j: int|
            0 <= i < j < start.len() ==> keys[(#[trigger] start[i]).0] != keys[(#[trigger] start[j]).0],
    ensures
        forall|i: int, j: int|
            0 <= i < j < all_rows(start, keys, n).len() ==> keys[(#[trigger] all_rows(
                start,
                keys,
                n,
            )[i]).0] != keys[(#[trigger] all_rows(start, keys, n)[j]).0],
    decreases n,
{
    if n > 0 {
        lemma_rows_distinct(start, keys, n - 1);
        let before = all_rows(start, keys, n - 1);
        let all = all_rows(start, keys, n);
        assert forall|i: int, j: int| 0 <= i < j < all.len() implies keys[(#[trigger] all[i]).0]
            != keys[(#[trigger] all[j]).0] by {
            assert(all[i] == before[i]);
            if j < before.len() {
                assert(all[j] == before[j]);
            } else if keys[before[i].0] == keys[all[j].0] {
                assert(rows_have(before, keys, keys[n - 1]));
            }
        }
    }
}


// ---------------------------------------------------------------------------
// Single items
// ---------------------------------------------------------------------------

/// A query that is a plain text.
pub open spec fn is_plain_query(
    spec: SearchQuerySpec,
    query: Seq<char>,
    scoring_modifiers: Seq<Seq<char>>,
    now: i64,
) -> bool {
    &&& spec.raw@ == query
    &&& spec.search_text@ == query
    &&& spec.folded_search_text@ == text::fold(query)
    &&& spec.modifiers@.len() == 0
    &&& text::texts(spec.scoring_modifiers@) == scoring_modifiers
    &&& !spec.show_all
    &&& spec.mode == SearchQueryMode::NormalSearch
    &&& spec.directory is None
    &&& spec.scoring_time_unix_seconds == now
}

/// The final score of an item for a query; none where it does not fit.
pub open spec fn final_score(
    item: LaunchItem,
    spec: SearchQuerySpec,
    history: HistoryTable,
    scoring: ScoringConfig,
) -> Option<i32> {
    match breakdown::components_for(
        item,
        spec,
        history_score(history, text::fold(item.path@)),
        scoring,
    ) {
        Some(components) => Some(components.final_score),
        None => None,
    }
}

/// The score of an item for a plain text at a time; none where it does not fit.
pub fn ranked_score_with_config(
    query: &str,
    scoring_modifiers: &[String],
    item: &LaunchItem,
    history: &HistoryTable,
    scoring: &ScoringConfig,
    now: i64,
) -> (r: Option<i32>)
    ensures
        exists|spec: SearchQuerySpec| #[trigger]
            is_plain_query(spec, query@, text::texts(scoring_modifiers@), now) && r == final_score(
                *item,
                spec,
                *history,
                *scoring,
            ),
{
    let spec = SearchQuerySpec {
        raw: query.to_owned(),
        search_text: query.to_owned(),
        folded_search_text: text::fold_text(query),
        modifiers: Vec::new(),
        scoring_modifiers: types::copy_strings(scoring_modifiers),
        show_all: false,
        mode: SearchQueryMode::NormalSearch,
        directory: None,
        scoring_time_unix_seconds: now,
    };
    let key = recents::recent_item_key(item.path.as_str());
    let noted = history.lookup(key.as_str());
    proof {
        assert(is_plain_query(spec, query@, text::texts(scoring_modifiers@), now));
    }
    match breakdown::score_components_with_config(item, &spec, noted.0, scoring) {
        Some(components) => Some(components.final_score),
        None => None,
    }
}

/// Adds the item of a path that was not met before and has a title.
pub fn push_item_with_config(
    path: &str,
    is_dir: bool,
    root: &IndexRoot,
    modified_at: Option<i64>,
    working_directory: &str,
    seen: &mut KeySet,
    items: &mut Vec<LaunchItem>,
)
    requires
        old(seen).well_formed(),
    ensures
        final(seen).well_formed(),
        final(seen)@ == old(seen)@.insert(text::fold(path@)),
        if old(seen)@.contains(text::fold(path@)) || items::candidate_title(
            path@,
            winpath::file_name(path@),
        ).len() == 0 {
            final(items)@ == old(items)@
        } else {
            &&& final(items)@.len() == old(items)@.len() + 1
            &&& final(items)@.drop_last() == old(items)@
            &&& items::item_of_path(
                final(items)@.last(),
                path@,
                is_dir,
                *root,
                modified_at,
                working_directory@,
            )
        },
{
    let key = text::fold_text(path);
    if !seen.insert(key.as_str()) {
        return;
    }
    match items::launch_item_from_path_with_type(path, is_dir, root, modified_at, working_directory) {
        Some(item) => {
            items.push(item);
            proof {
                assert(items@.drop_last() =~= old(items)@);
            }
        },
        None => {},
    }
}

// ---------------------------------------------------------------------------
// Which rows, and in which order
// ---------------------------------------------------------------------------

proof fn lemma_entry_for(entries: Seq<HistoryEntry>, key: Seq<char>, n: int)
    requires
        0 <= n <= entries.len(),
    ensures
        match entry_for(entries, key, n) {
            Some(i) => 0 <= i < n && entries[i].key@ == key && forall|k: int|
                i < k < n ==> (#[trigger] entries[k]).key@ != key,
            None => forall|k: int| 0 <= k < n ==> (#[trigger] entries[k]).key@ != key,
        },
    decreases n,
{
    if n > 0 && entries[n - 1].key@ != key {
        lemma_entry_for(entries, key, n - 1);
    }
}

/// What was launched counts with the score and the note of its last entry; what was not
/// launched counts nothing.
pub proof fn lemma_last_entry_of_the_history(table: HistoryTable, key: Seq<char>, i: int)
    ensures
        (forall|k: int|
            0 <= k < table.entries@.len() ==> (#[trigger] table.entries@[k]).key@ != key)
            ==> history_score(table, key) == 0 && history_raw(table, key) is None,
        0 <= i < table.entries@.len() && table.entries@[i].key@ == key && (forall|k: int|
            i < k < table.entries@.len() ==> (#[trigger] table.entries@[k]).key@ != key)
            ==> history_score(table, key) == table.entries@[i].score && history_raw(table, key) == (
        match table.entries@[i].raw {
            Some(raw) => Some(raw@),
            None => None,
        }),
{
    lemma_entry_for(table.entries@, key, table.entries@.len() as int);
}

proof fn lemma_item_for(keys: Seq<Seq<char>>, key: Seq<char>, n: int)
    requires
        0 <= n <= keys.len(),
    ensures
        match item_for(keys, key, n) {
            Some(i) => 0 <= i < n && keys[i] == key && forall|k: int|
                i < k < n ==> #[trigger] keys[k] != key,
            None => forall|k: int| 0 <= k < n ==> #[trigger] keys[k] != key,
        },
    decreases n,
{
    if n > 0 && keys[n - 1] != key {
        lemma_item_for(keys, key, n - 1);
    }
}

/// Items that were launched come in the order of the list of what was launched: each row is
/// for a key of that list, the places of the keys rise, no key has two rows, and every key
/// that an item has is there.
pub proof fn lemma_launched_items_in_order(
    recent: Seq<Option<String>>,
    keys: Seq<Seq<char>>,
    n: int,
)
    requires
        0 <= n <= recent.len(),
    ensures
        ({
            let rows = recent_rows(recent, keys, n);
            &&& exists|from: Seq<int>| #[trigger]
                places::rising(from, n) && from.len() == rows.len() && forall|k: int|
                    0 <= k < rows.len() ==> 0 <= (#[trigger] rows[k]).0 < keys.len() && rows[k].1
                        && recent[from[k]] is Some && keys[rows[k].0] == recent[from[k]]->0@
            &&& forall|i: int, j: int|
                #![trigger rows[i], rows[j]]
                0 <= i < j < rows.len() ==> keys[rows[i].0] != keys[rows[j].0]
            &&& forall|p: int|
                0 <= p < n && (#[trigger] recent[p]) is Some && keys.contains(recent[p]->0@)
                    ==> rows_have(rows, keys, recent[p]->0@)
        }),
    decreases n,
{
    if n > 0 {
        lemma_launched_items_in_order(recent, keys, n - 1);
        let before = recent_rows(recent, keys, n - 1);
        let rows = recent_rows(recent, keys, n);
        let from = choose|from: Seq<int>| #[trigger]
            places::rising(from, n - 1) && from.len() == before.len() && forall|k: int|
                0 <= k < before.len() ==> 0 <= (#[trigger] before[k]).0 < keys.len() && before[k].1
                    && recent[from[k]] is Some && keys[before[k].0] == recent[from[k]]->0@;
        assert forall|key: Seq<char>| rows_have(before, keys, key) implies #[trigger] rows_have(
            rows,
            keys,
            key,
        ) by {
            let i = choose|i: int| 0 <= i < before.len() && keys[(#[trigger] before[i]).0] == key;
            assert(rows[i] == before[i]);
        }
        if let Some(key) = recent[n - 1] {
            lemma_item_for(keys, key@, keys.len() as int);
            if keys.contains(key@) {
                let at = keys.index_of(key@);
                assert(keys[at] == key@);
            }
        }
        if rows != before {
            let next = from.push(n - 1);
            assert(places::rising(next, n)) by {
                assert forall|i: int| 0 <= i < next.len() implies 0 <= #[trigger] next[i] < n by {
                    if i < from.len() {
                        assert(next[i] == from[i]);
                    }
                }
                assert forall|i: int, j: int|
                    #![trigger next[i], next[j]]
                    0 <= i < j < next.len() implies next[i] < next[j] by {
                    assert(next[i] == from[i]);
                    if j < from.len() {
                        assert(next[j] == from[j]);
                    }
                }
            }
            assert forall|k: int| 0 <= k < rows.len() implies 0 <= (#[trigger] rows[k]).0
                < keys.len() && rows[k].1 && recent[next[k]] is Some && keys[rows[k].0]
                == recent[next[k]]->0@ by {
                if k < before.len() {
                    assert(rows[k] == before[k]);
                    assert(next[k] == from[k]);
                }
            }
            assert forall|i: int, j: int|
                #![trigger rows[i], rows[j]]
                0 <= i < j < rows.len() implies keys[rows[i].0] != keys[rows[j].0] by {
                assert(rows[i] == before[i]);
                if j < before.len() {
                    assert(rows[j] == before[j]);
                }
            }
            let last = rows.len() - 1;
            assert(rows_have(rows, keys, recent[n - 1]->0@)) by {
                assert(keys[rows[last].0] == recent[n - 1]->0@);
            }
        } else {
            assert(places::rising(from, n)) by {
                assert forall|i: int| 0 <= i < from.len() implies 0 <= #[trigger] from[i] < n by {}
            }
        }
    } else {
        assert(places::rising(Seq::<int>::empty(), n));
    }
}

/// Behind the rows of what was launched come the other items: the first rows stay, every key
/// has a row, and the rows that are added are in the order of the items and are not from the
/// history.
pub proof fn lemma_other_items_follow(start: Seq<(int, bool)>, keys: Seq<Seq<char>>, n: int)
    requires
        0 <= n <= keys.len(),
    ensures
        ({
            let rows = all_rows(start, keys, n);
            &&& rows.len() >= start.len()
            &&& rows.take(start.len() as int) == start
            &&& forall|p: int| 0 <= p < n ==> rows_have(rows, keys, #[trigger] keys[p])
            &&& forall|k: int|
                start.len() <= k < rows.len() ==> 0 <= (#[trigger] rows[k]).0 < n && !rows[k].1
            &&& forall|i: int, j: int|
                #![trigger rows[i], rows[j]]
                start.len() <= i < j < rows.len() ==> rows[i].0 < rows[j].0
        }),
    decreases n,
{
    let rows = all_rows(start, keys, n);
    if n > 0 {
        lemma_other_items_follow(start, keys, n - 1);
        let before = all_rows(start, keys, n - 1);
        assert(rows.take(start.len() as int) =~= before.take(start.len() as int));
        assert forall|key: Seq<char>| rows_have(before, keys, key) implies #[trigger] rows_have(
            rows,
            keys,
            key,
        ) by {
            let i = choose|i: int| 0 <= i < before.len() && keys[(#[trigger] before[i]).0] == key;
            assert(rows[i] == before[i]);
        }
        if rows != before {
            assert(rows[rows.len() - 1] == (n - 1, false));
            assert(rows_have(rows, keys, keys[n - 1]));
            assert forall|k: int| start.len() <= k < rows.len() implies 0 <= (#[trigger] rows[k]).0
                < n && !rows[k].1 by {
                if k < before.len() {
                    assert(rows[k] == before[k]);
                }
            }
            assert forall|i: int, j: int|
                #![trigger rows[i], rows[j]]
                start.len() <= i < j < rows.len() implies rows[i].0 < rows[j].0 by {
                assert(rows[i] == before[i]);
                if j < before.len() {
                    assert(rows[j] == before[j]);
                }
            }
        }
    } else {
        assert(rows.take(start.len() as int) =~= start);
    }
}

/// Of the rows those stay whose items fit the query, in their order.
pub proof fn lemma_fitting_rows_stay(
    items: Seq<LaunchItem>,
    rows: Seq<(int, bool)>,
    spec: SearchQuerySpec,
    history: HistoryTable,
    scoring: ScoringConfig,
    n: int,
)
    requires
        0 <= n <= rows.len(),
    ensures
        fitting_rows(items, rows, spec, history, scoring, n) == rows.take(n).filter(
            |row: (int, bool)|
                breakdown::components_for(
                    items[row.0],
                    spec,
                    history_score(history, text::fold(items[row.0].path@)),
                    scoring,
                ) is Some,
        ),
    decreases n,
{
    reveal(Seq::filter);
    if n > 0 {
        lemma_fitting_rows_stay(items, rows, spec, history, scoring, n - 1);
        assert(rows.take(n).drop_last() =~= rows.take(n - 1));
        assert(rows.take(n).last() == rows[n - 1]);
    }
}

/// A blank query is answered with what was launched, the first of the list first where an
/// item has its key; an offer of a plugin comes before everything, in the order of the
/// offers; any other query is answered with what fits it, the best first.
pub proof fn lemma_answers(
    r: Seq<SearchResult>,
    offers: Option<Vec<PluginOffer>>,
    items: Seq<LaunchItem>,
    recent_keys: Seq<Option<String>>,
    history: HistoryTable,
    spec: SearchQuerySpec,
    scoring: ScoringConfig,
    limit: int,
    wording: Wording,
)
    requires
        limit > 0,
        answered(r, offers, items, recent_keys, history, spec, scoring, limit, wording),
    ensures
        r.len() <= limit,
        offers matches Some(list) ==> forall|i: int|
            0 <= i < r.len() ==> (#[trigger] r[i]).ranking_kind == ResultRankingKind::Plugin
                && r[i].title@ == list@[i].title@ && r[i].score == list@[i].score,
        offers is None && spec.folded_search_text@.len() == 0 && spec.modifiers@.len() == 0 ==> {
            &&& forall|i: int|
                0 <= i < r.len() ==> (#[trigger] r[i]).ranking_kind
                    == ResultRankingKind::RecentOrder && r[i].from_history
            &&& recent_keys.len() > 0 && recent_keys[0] is Some && item_keys(items).contains(
                recent_keys[0]->0@,
            ) ==> r.len() > 0 && (exists|i: int|
                0 <= i < items.len() && text::fold((#[trigger] items[i]).path@)
                    == recent_keys[0]->0@ && (r[0].target matches LaunchTarget::Path(path) && path@
                    == items[i].path@))
        },
        offers is None && (spec.folded_search_text@.len() > 0 || spec.modifiers@.len() > 0) ==> {
            &&& ordering::in_order(r)
            &&& forall|i: int|
                0 <= i < r.len() ==> (#[trigger] r[i]).ranking_kind == ResultRankingKind::Heuristic
        },
{
    let keys = item_keys(items);
    let recent = recent_rows(recent_keys, keys, recent_keys.len() as int);
    if offers is None {
        if spec.folded_search_text@.len() == 0 && spec.modifiers@.len() == 0 {
            let rows = ordering::first(recent, limit);
            if recent_keys.len() > 0 && recent_keys[0] is Some && keys.contains(recent_keys[0]->0@) {
                lemma_launched_items_in_order(recent_keys, keys, recent_keys.len() as int);
                let from = choose|from: Seq<int>| #[trigger]
                    places::rising(from, recent_keys.len() as int) && from.len() == recent.len()
                        && forall|k: int|
                        0 <= k < recent.len() ==> 0 <= (#[trigger] recent[k]).0 < keys.len()
                            && recent[k].1 && recent_keys[from[k]] is Some && keys[recent[k].0]
                            == recent_keys[from[k]]->0@;
                lemma_first_row(recent_keys, keys, recent_keys.len() as int);
                assert(rows[0] == recent[0]);
                let i = recent[0].0;
                assert(keys[i] == text::fold(items[i].path@));
                assert(shows_recent(r[0], items[rows[0].0], wording));
            }
            assert forall|i: int| 0 <= i < r.len() implies (#[trigger] r[i]).ranking_kind
                == ResultRankingKind::RecentOrder && r[i].from_history by {
                assert(shows_recent(r[i], items[rows[i].0], wording));
            }
        } else {
            let rows = all_rows(recent, keys, keys.len() as int);
            let fitting = fitting_rows(items, rows, spec, history, scoring, rows.len() as int);
            let found = choose|found: Seq<SearchResult>| #[trigger]
                show_rows(found, items, fitting, spec, history, scoring, wording) && r
                    == ordering::first(ordering::ordered(found), limit);
            ordering::lemma_ordered_in_order(found);
            ordering::lemma_ordered_same_items(found);
            let all = ordering::ordered(found);
            assert forall|i: int| 0 <= i < r.len() implies (#[trigger] r[i]).ranking_kind
                == ResultRankingKind::Heuristic by {
                assert(r[i] == all[i]);
                assert(all.to_multiset().count(all[i]) > 0) by {
                    vstd::seq_lib::to_multiset_contains(all, all[i]);
                }
                vstd::seq_lib::to_multiset_contains(found, all[i]);
                let k = found.index_of(all[i]);
                assert(shows_row(found[k], items, fitting[k], spec, history, scoring, wording));
            }
            assert forall|i: int, j: int|
                #![trigger r[i], r[j]]
                0 <= i < j < r.len() implies !ordering::key_before(r[j].rank_key(), r[i].rank_key()) by {
                assert(r[i] == all[i] && r[j] == all[j]);
            }
        }
    } else {
        let list = offers->0;
        assert forall|i: int| 0 <= i < r.len() implies (#[trigger] r[i]).ranking_kind
            == ResultRankingKind::Plugin && r[i].title@ == list@[i].title@ && r[i].score
            == list@[i].score by {
            assert(shows_offer(r[i], list@[i], text::trimmed(spec.raw@), wording));
        }
    }
}

proof fn lemma_first_row(recent: Seq<Option<String>>, keys: Seq<Seq<char>>, n: int)
    requires
        1 <= n <= recent.len(),
        recent[0] is Some,
        keys.contains(recent[0]->0@),
    ensures
        recent_rows(recent, keys, n).len() > 0,
        0 <= recent_rows(recent, keys, n)[0].0 < keys.len(),
        keys[recent_rows(recent, keys, n)[0].0] == recent[0]->0@,
    decreases n,
{
    if n > 1 {
        lemma_first_row(recent, keys, n - 1);
    } else {
        lemma_item_for(keys, recent[0]->0@, keys.len() as int);
        let at = keys.index_of(recent[0]->0@);
        assert(keys[at] == recent[0]->0@);
        assert(recent_rows(recent, keys, 0) =~= Seq::empty());
    }
}

/// A limit is kept as it is, but for nothing: then one is shown.
pub proof fn lemma_limits_are_kept(limit: usize)
    ensures
        at_least_one(limit) >= 1,
        limit >= 1 ==> at_least_one(limit) == limit,
        at_least_one(0) == 1,
{
}

/// A query that is meant as it is asks for no keywords and browses no directory, and is folded
/// like any other.
pub proof fn lemma_plain_queries(
    spec: SearchQuerySpec,
    query: Seq<char>,
    scoring_modifiers: Seq<Seq<char>>,
    now: i64,
)
    requires
        is_plain_query(spec, query, scoring_modifiers, now),
    ensures
        spec.folded_search_text@ == text::fold(spec.search_text@),
        spec.search_text@ == query && spec.raw@ == query,
        spec.modifiers@.len() == 0 && !spec.show_all && spec.directory is None,
        text::texts(spec.scoring_modifiers@) == scoring_modifiers,
        spec.mode == SearchQueryMode::NormalSearch,
        spec.scoring_time_unix_seconds == now,
{
}

/// What a plugin offers is shown with its title and its text, does what the plugin says, and is
/// no directory and no path.
pub proof fn lemma_offers_of_plugins(
    result: SearchResult,
    offer: PluginOffer,
    query: Seq<char>,
    wording: Wording,
)
    requires
        shows_offer(result, offer, query, wording),
    ensures
        result.title@ == offer.title@,
        result.subtitle@ == offer.subtitle@,
        result.target matches LaunchTarget::Plugin(action) && action@ == offer.action@,
        results::target_path(result) is None,
        !result.is_dir && !result.from_history && !result.from_query_launch_rule,
        result.ranking_kind == ResultRankingKind::Plugin,
        result.score == offer.score,
{
}

} // verus!
