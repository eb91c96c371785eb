//! The order of results, and lists kept in that order.

use crate::text;
use crate::types::ResultRankingKind;
use vstd::prelude::*;

verus! {

// ---------------------------------------------------------------------------
// Keys
// ---------------------------------------------------------------------------

/// What a result is placed by: a higher priority first, then a higher score,
/// then the lowercase title, the lowercase subtitle and the order of arrival.
pub struct RankKey {
    pub priority: int,
    pub score: int,
    pub title: Seq<char>,
    pub subtitle: Seq<char>,
    pub sequence: int,
}

/// A key comes before another.
pub open spec fn key_before(a: RankKey, b: RankKey) -> bool {
    if a.priority != b.priority {
        a.priority > b.priority
    } else if a.score != b.score {
        a.score > b.score
    } else if a.title != b.title {
        text::text_less(a.title, b.title)
    } else if a.subtitle != b.subtitle {
        text::text_less(a.subtitle, b.subtitle)
    } else {
        a.sequence < b.sequence
    }
}

/// The priority of a kind of evidence.
pub open spec fn priority_of(kind: ResultRankingKind) -> int {
    match kind {
        ResultRankingKind::QueryLaunchRule => 3,
        ResultRankingKind::Plugin => 2,
        ResultRankingKind::RecentOrder => 1,
        ResultRankingKind::Heuristic => 0,
    }
}

/// The priority of a kind of evidence.
pub fn ranking_priority(kind: ResultRankingKind) -> (r: u8)
    ensures
        r == priority_of(kind),
{
    match kind {
        ResultRankingKind::QueryLaunchRule => 3,
        ResultRankingKind::Plugin => 2,
        ResultRankingKind::RecentOrder => 1,
        ResultRankingKind::Heuristic => 0,
    }
}

/// Of two different keys exactly one comes first.
pub proof fn lemma_key_total(a: RankKey, b: RankKey)
    ensures
        a == b ==> !key_before(a, b),
        a != b ==> (key_before(a, b) <==> !key_before(b, a)),
{
    text::lemma_text_less_total(a.title, b.title);
    text::lemma_text_less_total(a.subtitle, b.subtitle);
}

/// The order of keys is transitive.
pub proof fn lemma_key_transitive(a: RankKey, b: RankKey, c: RankKey)
    requires
        key_before(a, b),
        key_before(b, c),
    ensures
        key_before(a, c),
{
    if a.priority == b.priority && b.priority == c.priority && a.score == b.score && b.score
        == c.score {
        if a.title != b.title && b.title != c.title {
            text::lemma_text_less_transitive(a.title, b.title, c.title);
            text::lemma_text_less_total(a.title, c.title);
        } else if a.title == b.title && b.title == c.title {
            if a.subtitle != b.subtitle && b.subtitle != c.subtitle {
                text::lemma_text_less_transitive(a.subtitle, b.subtitle, c.subtitle);
                text::lemma_text_less_total(a.subtitle, c.subtitle);
            }
        }
    }
}

/// What does not come after `b` does not come after anything behind `b`.
pub proof fn lemma_key_chain(a: RankKey, b: RankKey, c: RankKey)
    requires
        !key_before(b, a),
        key_before(b, c),
    ensures
        key_before(a, c),
{
    lemma_key_total(a, b);
    if a != b {
        lemma_key_transitive(a, b, c);
    }
}

/// Not coming after is transitive.
pub proof fn lemma_key_chain_weak(a: RankKey, b: RankKey, c: RankKey)
    requires
        !key_before(b, a),
        !key_before(c, b),
    ensures
        !key_before(c, a),
{
    lemma_key_total(a, b);
    lemma_key_total(b, c);
    lemma_key_total(a, c);
    if a != b && b != c {
        lemma_key_transitive(a, b, c);
    }
}

/// Something that has a place in the order of results.
pub trait Ranked: Sized {
    spec fn rank_key(&self) -> RankKey;

    /// Whether this comes before another.
    fn outranks(&self, other: &Self) -> (r: bool)
        ensures
            r == key_before(self.rank_key(), other.rank_key()),
    ;
}

/// Whether one pair of title and subtitle comes before another, all else being
/// equal up to the sequence.
pub(crate) fn rank_less(
    left: (u8, i32, &str, &str, u64),
    right: (u8, i32, &str, &str, u64),
) -> (r: bool)
    ensures
        r == key_before(
            RankKey {
                priority: left.0 as int,
                score: left.1 as int,
                title: text::unicode_lowercase(left.2@),
                subtitle: text::unicode_lowercase(left.3@),
                sequence: left.4 as int,
            },
            RankKey {
                priority: right.0 as int,
                score: right.1 as int,
                title: text::unicode_lowercase(right.2@),
                subtitle: text::unicode_lowercase(right.3@),
                sequence: right.4 as int,
            },
        ),
{
    if left.0 != right.0 {
        return left.0 > right.0;
    }
    if left.1 != right.1 {
        return left.1 > right.1;
    }
    let left_title = text::lowercase_string(left.2);
    let right_title = text::lowercase_string(right.2);
    let lt = text::chars_of(left_title.as_str());
    let rt = text::chars_of(right_title.as_str());
    if !text::same_chars(lt.as_slice(), rt.as_slice()) {
        return text::chars_less(lt.as_slice(), rt.as_slice());
    }
    let left_subtitle = text::lowercase_string(left.3);
    let right_subtitle = text::lowercase_string(right.3);
    let ls = text::chars_of(left_subtitle.as_str());
    let rs = text::chars_of(right_subtitle.as_str());
    if !text::same_chars(ls.as_slice(), rs.as_slice()) {
        return text::chars_less(ls.as_slice(), rs.as_slice());
    }
    left.4 < right.4
}

// ---------------------------------------------------------------------------
// Ordered lists
// ---------------------------------------------------------------------------

/// No item comes before an earlier one.
pub open spec fn in_order<T: Ranked>(s: Seq<T>) -> bool {
    forall|i: int, j: int|
        #![trigger s[i], s[j]]
        0 <= i < j < s.len() ==> !key_before(s[j].rank_key(), s[i].rank_key())
}

/// The place behind every item that does not come after the key.
pub open spec fn place_of<T: Ranked>(s: Seq<T>, key: RankKey) -> int
    decreases s.len(),
{
    if s.len() == 0 {
        0
    } else if key_before(key, s.last().rank_key()) {
        place_of(s.drop_last(), key)
    } else {
        s.len() as int
    }
}

/// The list with one item put in its place.
pub open spec fn put<T: Ranked>(s: Seq<T>, item: T) -> Seq<T> {
    s.insert(place_of(s, item.rank_key()), item)
}

/// The items in order, equal ones as they came.
pub open spec fn ordered<T: Ranked>(items: Seq<T>) -> Seq<T>
    decreases items.len(),
{
    if items.len() == 0 {
        items
    } else {
        put(ordered(items.drop_last()), items.last())
    }
}

/// At most the first `n` items.
pub open spec fn first<T>(s: Seq<T>, n: int) -> Seq<T> {
    if n < s.len() {
        s.take(n)
    } else {
        s
    }
}

pub proof fn lemma_place<T: Ranked>(s: Seq<T>, key: RankKey)
    requires
        in_order(s),
    ensures
        0 <= place_of(s, key) <= s.len(),
        forall|i: int|
            0 <= i < place_of(s, key) ==> !key_before(key, #[trigger] s[i].rank_key()),
        forall|i: int|
            place_of(s, key) <= i < s.len() ==> key_before(key, #[trigger] s[i].rank_key()),
    decreases s.len(),
{
    if s.len() > 0 {
        let rest = s.drop_last();
        if key_before(key, s.last().rank_key()) {
            assert(in_order(rest)) by {
                assert forall|i: int, j: int|
                    #![trigger rest[i], rest[j]]
                    0 <= i < j < rest.len() implies !key_before(
                    rest[j].rank_key(),
                    rest[i].rank_key(),
                ) by {
                    assert(rest[i] == s[i] && rest[j] == s[j]);
                }
            }
            lemma_place(rest, key);
            assert forall|i: int| 0 <= i < place_of(s, key) implies !key_before(
                key,
                #[trigger] s[i].rank_key(),
            ) by {
                assert(rest[i] == s[i]);
            }
            assert forall|i: int| place_of(s, key) <= i < s.len() implies key_before(
                key,
                #[trigger] s[i].rank_key(),
            ) by {
                if i < rest.len() {
                    assert(rest[i] == s[i]);
                }
            }
        } else {
            assert forall|i: int| 0 <= i < s.len() implies !key_before(
                key,
                #[trigger] s[i].rank_key(),
            ) by {
                if i < s.len() - 1 && key_before(key, s[i].rank_key()) {
                    assert(!key_before(s[s.len() - 1].rank_key(), s[i].rank_key()));
                    lemma_key_total(s[i].rank_key(), s.last().rank_key());
                    if s[i].rank_key() != s.last().rank_key() {
                        lemma_key_transitive(key, s[i].rank_key(), s.last().rank_key());
                    }
                }
            }
        }
    }
}

/// The place of a key is the one position that parts the list.
pub proof fn lemma_place_is<T: Ranked>(s: Seq<T>, key: RankKey, p: int)
    requires
        in_order(s),
        0 <= p <= s.len(),
        p > 0 ==> !key_before(key, s[p - 1].rank_key()),
        p < s.len() ==> key_before(key, s[p].rank_key()),
    ensures
        place_of(s, key) == p,
{
    lemma_place(s, key);
    let q = place_of(s, key);
    if q < p {
        assert(key_before(key, s[p - 1].rank_key()));
    }
    if p < q {
        assert(!key_before(key, s[p].rank_key()));
    }
}

/// Putting an item into an ordered list keeps the order.
pub proof fn lemma_put_in_order<T: Ranked>(s: Seq<T>, item: T)
    requires
        in_order(s),
    ensures
        in_order(put(s, item)),
        put(s, item).len() == s.len() + 1,
{
    let key = item.rank_key();
    lemma_place(s, key);
    let p = place_of(s, key);
    let r = put(s, item);
    assert forall|i: int, j: int|
        #![trigger r[i], r[j]]
        0 <= i < j < r.len() implies !key_before(r[j].rank_key(), r[i].rank_key()) by {
        let a = if i < p {
            i
        } else {
            i - 1
        };
        let b = if j < p {
            j
        } else {
            j - 1
        };
        if i != p && j != p {
            assert(r[i] == s[a] && r[j] == s[b]);
        } else if j == p {
            assert(r[i] == s[i]);
        } else {
            assert(r[j] == s[b]);
            lemma_key_total(key, s[b].rank_key());
        }
    }
}

/// The ordered items are in order.
pub proof fn lemma_ordered_in_order<T: Ranked>(items: Seq<T>)
    ensures
        in_order(ordered(items)),
        ordered(items).len() == items.len(),
    decreases items.len(),
{
    if items.len() > 0 {
        lemma_ordered_in_order(items.drop_last());
        lemma_put_in_order(ordered(items.drop_last()), items.last());
    }
}

/// Ordering keeps the items.
pub proof fn lemma_ordered_same_items<T: Ranked>(items: Seq<T>)
    ensures
        ordered(items).to_multiset() == items.to_multiset(),
    decreases items.len(),
{
    if items.len() > 0 {
        let rest = items.drop_last();
        lemma_ordered_same_items(rest);
        lemma_ordered_in_order(rest);
        lemma_place(ordered(rest), items.last().rank_key());
        let o = ordered(rest);
        let p = place_of(o, items.last().rank_key());
        let x = items.last();
        let longer = put(o, x);
        longer.to_multiset_ensures();
        rest.to_multiset_ensures();
        assert(longer.remove(p) =~= o);
        assert(longer[p] == x);
        assert(longer.contains(x));
        assert(items =~= rest.push(x));
        assert(longer.to_multiset() =~= o.to_multiset().insert(x));
    }
}

// ---------------------------------------------------------------------------
// Putting items in place
// ---------------------------------------------------------------------------

/// The place of an item in an ordered list.
pub fn find_place<T: Ranked>(list: &Vec<T>, item: &T) -> (r: usize)
    requires
        in_order(list@),
    ensures
        r == place_of(list@, item.rank_key()),
        r <= list.len(),
{
    let mut low: usize = 0;
    let mut high: usize = list.len();
    proof {
        lemma_place(list@, item.rank_key());
    }
    while low < high
        invariant
            low <= place_of(list@, item.rank_key()) <= high <= list.len(),
            in_order(list@),
        decreases high - low,
    {
        let middle: usize = low + (high - low) / 2;
        proof {
            lemma_place(list@, item.rank_key());
        }
        if item.outranks(&list[middle]) {
            high = middle;
        } else {
            low = middle + 1;
        }
    }
    low
}

/// Puts an item into an ordered list, behind its equals.
pub fn put_in_order<T: Ranked>(list: &mut Vec<T>, item: T)
    requires
        in_order(old(list)@),
    ensures
        final(list)@ == put(old(list)@, item),
        in_order(final(list)@),
{
    let place: usize = find_place(list, &item);
    proof {
        lemma_put_in_order(list@, item);
    }
    list.insert(place, item);
}

/// What a list of at most `limit` items holds once an item was offered. A
/// limit of nothing counts as one; the largest limit is none, and the list is
/// then not kept in order.
pub open spec fn offered<T: Ranked>(s: Seq<T>, item: T, limit: usize) -> Seq<T> {
    if limit == usize::MAX {
        s.push(item)
    } else {
        let n = if limit == 0 {
            1int
        } else {
            limit as int
        };
        first(put(s, item), n)
    }
}

/// Whether an offered item enters the list.
pub open spec fn enters<T: Ranked>(s: Seq<T>, item: T, limit: usize) -> bool {
    limit == usize::MAX || s.len() == 0 || s.len() < limit || key_before(
        item.rank_key(),
        s.last().rank_key(),
    )
}

/// Offers an item to a list of bounded length.
pub fn offer<T: Ranked>(list: &mut Vec<T>, item: T, limit: usize) -> (r: bool)
    requires
        limit != usize::MAX ==> in_order(old(list)@),
        limit != usize::MAX ==> old(list)@.len() <= limit || old(list)@.len() <= 1,
    ensures
        final(list)@ == offered(old(list)@, item, limit),
        r == enters(old(list)@, item, limit),
        limit != usize::MAX ==> in_order(final(list)@),
        limit != usize::MAX ==> final(list)@.len() <= limit || final(list)@.len() <= 1,
{
    if limit == usize::MAX {
        list.push(item);
        return true;
    }
    let bound: usize = if limit == 0 {
        1
    } else {
        limit
    };
    let ghost before = list@;
    proof {
        lemma_place(before, item.rank_key());
        lemma_put_in_order(before, item);
    }
    if list.len() >= bound && !item.outranks(&list[list.len() - 1]) {
        proof {
            assert(put(before, item).take(bound as int) =~= before);
        }
        return false;
    }
    put_in_order(list, item);
    if list.len() > bound {
        let ghost longer = list@;
        let _ = list.pop();
        proof {
            assert(list@ =~= longer.take(bound as int));
            assert forall|i: int, j: int|
                #![trigger list@[i], list@[j]]
                0 <= i < j < list@.len() implies !key_before(
                list@[j].rank_key(),
                list@[i].rank_key(),
            ) by {
                assert(list@[i] == longer[i] && list@[j] == longer[j]);
            }
        }
    }
    true
}

/// The list that offering the items one by one to an empty list leaves.
pub open spec fn offered_all<T: Ranked>(items: Seq<T>, limit: usize) -> Seq<T>
    decreases items.len(),
{
    if items.len() == 0 {
        items
    } else {
        offered(offered_all(items.drop_last(), limit), items.last(), limit)
    }
}

proof fn lemma_first_in_order<T: Ranked>(s: Seq<T>, n: int)
    requires
        in_order(s),
        0 <= n,
    ensures
        in_order(first(s, n)),
{
    let f = first(s, n);
    assert forall|i: int, j: int|
        #![trigger f[i], f[j]]
        0 <= i < j < f.len() implies !key_before(f[j].rank_key(), f[i].rank_key()) by {
        assert(f[i] == s[i] && f[j] == s[j]);
    }
}

proof fn lemma_put_first<T: Ranked>(s: Seq<T>, item: T, n: int)
    requires
        in_order(s),
        0 < n,
    ensures
        first(put(first(s, n), item), n) == first(put(s, item), n),
{
    let key = item.rank_key();
    lemma_place(s, key);
    lemma_first_in_order(s, n);
    let f = first(s, n);
    let p = place_of(s, key);
    if n < s.len() {
        if p <= n {
            if p > 0 {
                assert(f[p - 1] == s[p - 1]);
            }
            if p < n {
                assert(f[p] == s[p]);
            }
            lemma_place_is(f, key, p);
        } else {
            assert(f[n - 1] == s[n - 1]);
            lemma_place_is(f, key, n);
        }
        assert(first(put(f, item), n) =~= first(put(s, item), n));
    }
}

/// Offering items one by one to a list of bounded length leaves the first of
/// all items in order.
pub proof fn lemma_offered_all_is_ordered<T: Ranked>(items: Seq<T>, limit: usize)
    requires
        limit != usize::MAX,
    ensures
        offered_all(items, limit) == first(
            ordered(items),
            if limit == 0 {
                1int
            } else {
                limit as int
            },
        ),
    decreases items.len(),
{
    if items.len() > 0 {
        let n = if limit == 0 {
            1int
        } else {
            limit as int
        };
        lemma_offered_all_is_ordered(items.drop_last(), limit);
        lemma_ordered_in_order(items.drop_last());
        lemma_put_first(ordered(items.drop_last()), items.last(), n);
    }
}

/// The keys of items.
pub open spec fn keys_of<T: Ranked>(items: Seq<T>) -> Seq<RankKey> {
    Seq::new(items.len(), |i: int| items[i].rank_key())
}

/// The same items have the same keys.
proof fn lemma_same_keys<T: Ranked>(a: Seq<T>, b: Seq<T>)
    requires
        a.to_multiset() == b.to_multiset(),
    ensures
        keys_of(a).to_multiset() == keys_of(b).to_multiset(),
        a.len() == b.len(),
    decreases a.len(),
{
    broadcast use vstd::seq_lib::group_to_multiset_ensures;

    a.to_multiset_ensures();
    b.to_multiset_ensures();
    if a.len() == 0 {
        assert(keys_of(a) =~= keys_of(b));
    } else {
        let x = a.last();
        let n = a.len() - 1;
        assert(a.to_multiset().contains(x));
        let i = choose|i: int| 0 <= i < b.len() && b[i] == x;
        assert(a.remove(n) =~= a.drop_last());
        assert(a.remove(n).to_multiset() =~= b.remove(i).to_multiset());
        lemma_same_keys(a.remove(n), b.remove(i));
        assert(keys_of(a.remove(n)) =~= keys_of(a).remove(n));
        assert(keys_of(b.remove(i)) =~= keys_of(b).remove(i));
        keys_of(a).to_multiset_ensures();
        keys_of(b).to_multiset_ensures();
        let key = x.rank_key();
        assert(keys_of(a)[n] == key && keys_of(b)[i] == key);
        assert(keys_of(a).contains(key) && keys_of(b).contains(key));
        assert(keys_of(a).to_multiset() =~= keys_of(a).remove(n).to_multiset().insert(key));
        assert(keys_of(b).to_multiset() =~= keys_of(b).remove(i).to_multiset().insert(key));
    }
}

/// Items in order have the keys in the one order that there is for them.
pub proof fn lemma_one_order<T: Ranked>(a: Seq<T>, b: Seq<T>)
    requires
        keys_of(a).to_multiset() == keys_of(b).to_multiset(),
        in_order(a),
        in_order(b),
    ensures
        keys_of(a) == keys_of(b),
{
    let leq = |x: RankKey, y: RankKey| !key_before(y, x);
    assert forall|x: RankKey| #[trigger] leq(x, x) by {
        lemma_key_total(x, x);
    }
    assert forall|x: RankKey, y: RankKey| #[trigger] leq(x, y) && #[trigger] leq(y, x) implies x
        == y by {
        lemma_key_total(x, y);
    }
    assert forall|x: RankKey, y: RankKey, z: RankKey| #[trigger]
        leq(x, y) && #[trigger] leq(y, z) implies leq(x, z) by {
        lemma_key_chain_weak(x, y, z);
    }
    assert forall|x: RankKey, y: RankKey| #[trigger] leq(x, y) || #[trigger] leq(y, x) by {
        lemma_key_total(x, y);
    }
    assert(vstd::relations::total_ordering(leq));
    assert(vstd::relations::sorted_by(keys_of(a), leq)) by {
        assert forall|i: int, j: int| 0 <= i < j < keys_of(a).len() implies #[trigger] leq(
            keys_of(a)[i],
            keys_of(a)[j],
        ) by {
            assert(!key_before(a[j].rank_key(), a[i].rank_key()));
        }
    }
    assert(vstd::relations::sorted_by(keys_of(b), leq)) by {
        assert forall|i: int, j: int| 0 <= i < j < keys_of(b).len() implies #[trigger] leq(
            keys_of(b)[i],
            keys_of(b)[j],
        ) by {
            assert(!key_before(b[j].rank_key(), b[i].rank_key()));
        }
    }
    vstd::seq_lib::lemma_sorted_unique(keys_of(a), keys_of(b), leq);
}

/// In whatever order items with the same keys are offered to a list of bounded length,
/// the list ends with the same keys in the same places.
pub proof fn lemma_offering_goes_by_keys<T: Ranked>(a: Seq<T>, b: Seq<T>, limit: usize)
    requires
        limit != usize::MAX,
        keys_of(a).to_multiset() == keys_of(b).to_multiset(),
    ensures
        keys_of(offered_all(a, limit)) == keys_of(offered_all(b, limit)),
{
    lemma_offered_all_is_ordered(a, limit);
    lemma_offered_all_is_ordered(b, limit);
    lemma_ordered_in_order(a);
    lemma_ordered_in_order(b);
    lemma_ordered_same_items(a);
    lemma_ordered_same_items(b);
    lemma_same_keys(ordered(a), a);
    lemma_same_keys(ordered(b), b);
    lemma_one_order(ordered(a), ordered(b));
    let n = if limit == 0 {
        1int
    } else {
        limit as int
    };
    let x = ordered(a);
    let y = ordered(b);
    assert(keys_of(x).len() == keys_of(y).len());
    assert forall|i: int| 0 <= i < x.len() implies x[i].rank_key() == y[i].rank_key() by {
        assert(keys_of(x)[i] == keys_of(y)[i]);
    }
    assert(keys_of(first(x, n)) =~= keys_of(first(y, n)));
}

/// In whatever order the same items are offered to a list of bounded length, the list
/// ends with the same keys in the same places.
pub proof fn lemma_offering_order_is_free<T: Ranked>(a: Seq<T>, b: Seq<T>, limit: usize)
    requires
        limit != usize::MAX,
        a.to_multiset() == b.to_multiset(),
    ensures
        keys_of(offered_all(a, limit)) == keys_of(offered_all(b, limit)),
{
    lemma_same_keys(a, b);
    lemma_offering_goes_by_keys(a, b, limit);
}

/// Whatever is in a list of bounded length was offered.
pub proof fn lemma_offered_is_from<T: Ranked>(items: Seq<T>, limit: usize, i: int)
    requires
        limit != usize::MAX,
        0 <= i < offered_all(items, limit).len(),
    ensures
        items.contains(offered_all(items, limit)[i]),
{
    lemma_offered_all_is_ordered(items, limit);
    lemma_ordered_same_items(items);
    items.to_multiset_ensures();
    ordered(items).to_multiset_ensures();
    let x = offered_all(items, limit)[i];
    assert(ordered(items)[i] == x);
    assert(ordered(items).contains(x));
    assert(items.to_multiset().count(x) > 0);
}

// ---------------------------------------------------------------------------
// Sorting
// ---------------------------------------------------------------------------

/// Two ordered lists merged; of equal items those of the first list lead.
pub open spec fn merged<T: Ranked>(a: Seq<T>, b: Seq<T>) -> Seq<T>
    decreases a.len() + b.len(),
{
    if b.len() == 0 {
        a
    } else if a.len() == 0 {
        b
    } else if key_before(b.last().rank_key(), a.last().rank_key()) {
        merged(a.drop_last(), b).push(a.last())
    } else {
        merged(a, b.drop_last()).push(b.last())
    }
}

proof fn lemma_drop_last_in_order<T: Ranked>(s: Seq<T>)
    requires
        in_order(s),
        s.len() > 0,
    ensures
        in_order(s.drop_last()),
{
    let f = s.drop_last();
    assert forall|i: int, j: int|
        #![trigger f[i], f[j]]
        0 <= i < j < f.len() implies !key_before(f[j].rank_key(), f[i].rank_key()) by {
        assert(f[i] == s[i] && f[j] == s[j]);
    }
}

/// The last item of a merge is the last of one of its parts, and no item of
/// either comes behind it.
proof fn lemma_merged_last<T: Ranked>(a: Seq<T>, b: Seq<T>)
    requires
        a.len() + b.len() > 0,
    ensures
        merged(a, b).len() == a.len() + b.len(),
        merged(a, b).last() == (if b.len() == 0 || (a.len() > 0 && key_before(
            b.last().rank_key(),
            a.last().rank_key(),
        )) {
            a.last()
        } else {
            b.last()
        }),
    decreases a.len() + b.len(),
{
    if a.len() > 0 && b.len() > 0 {
        if key_before(b.last().rank_key(), a.last().rank_key()) {
            lemma_merged_last(a.drop_last(), b);
        } else {
            lemma_merged_last(a, b.drop_last());
        }
    }
}

proof fn lemma_put_last<T: Ranked>(s: Seq<T>, last: T, item: T)
    ensures
        key_before(item.rank_key(), last.rank_key()) ==> put(s.push(last), item) == put(
            s,
            item,
        ).push(last),
        !key_before(item.rank_key(), last.rank_key()) ==> put(s.push(last), item) == s.push(
            last,
        ).push(item),
{
    assert(s.push(last).drop_last() =~= s);
    let p = place_of(s, item.rank_key());
    lemma_place_bounds(s, item.rank_key());
    if key_before(item.rank_key(), last.rank_key()) {
        assert(s.push(last).insert(p, item) =~= s.insert(p, item).push(last));
    } else {
        assert(s.push(last).insert(s.len() as int + 1, item) =~= s.push(last).push(item));
    }
}

proof fn lemma_place_bounds<T: Ranked>(s: Seq<T>, key: RankKey)
    ensures
        0 <= place_of(s, key) <= s.len(),
    decreases s.len(),
{
    if s.len() > 0 {
        lemma_place_bounds(s.drop_last(), key);
    }
}

proof fn lemma_put_ends<T: Ranked>(s: Seq<T>, item: T)
    ensures
        s.len() == 0 ==> put(s, item) == seq![item],
        s.len() > 0 && key_before(item.rank_key(), s.last().rank_key()) ==> put(s, item) == put(
            s.drop_last(),
            item,
        ).push(s.last()),
        s.len() > 0 && !key_before(item.rank_key(), s.last().rank_key()) ==> put(s, item)
            == s.push(item),
{
    if s.len() == 0 {
        assert(put(s, item) =~= seq![item]);
    } else {
        assert(s.drop_last().push(s.last()) =~= s);
        lemma_put_last(s.drop_last(), s.last(), item);
    }
}

/// Putting an item into a merge is putting it into the second list first.
proof fn lemma_put_merged<T: Ranked>(a: Seq<T>, b: Seq<T>, item: T)
    requires
        in_order(a),
        in_order(b),
    ensures
        put(merged(a, b), item) == merged(a, put(b, item)),
    decreases a.len() + b.len(),
{
    let key = item.rank_key();
    let one = seq![item];
    lemma_put_ends(b, item);
    if a.len() == 0 {
        lemma_place_bounds(b, key);
        if b.len() == 0 {
            assert(put(a, item) =~= one);
        }
    } else if b.len() == 0 {
        lemma_put_ends(a, item);
        assert(one.last() == item);
        assert(one.drop_last() =~= Seq::<T>::empty());
        if key_before(key, a.last().rank_key()) {
            lemma_drop_last_in_order(a);
            lemma_put_merged(a.drop_last(), b, item);
            assert(merged(a, one) == merged(a.drop_last(), one).push(a.last()));
        } else {
            assert(merged(a, one) == merged(a, one.drop_last()).push(item));
        }
    } else {
        lemma_drop_last_in_order(a);
        lemma_drop_last_in_order(b);
        let al = a.last();
        let bl = b.last();
        if key_before(bl.rank_key(), al.rank_key()) {
            // The merge ends with the last item of `a`.
            lemma_put_merged(a.drop_last(), b, item);
            lemma_put_last(merged(a.drop_last(), b), al, item);
            if key_before(key, al.rank_key()) {
                let longer = put(b, item);
                assert(longer.len() > 0);
                if key_before(key, bl.rank_key()) {
                    assert(longer.last() == bl);
                } else {
                    assert(longer.last() == item);
                }
            } else {
                if key_before(key, bl.rank_key()) {
                    lemma_key_transitive(key, bl.rank_key(), al.rank_key());
                }
                assert(put(b, item).drop_last() =~= b);
            }
        } else {
            // The merge ends with the last item of `b`.
            lemma_put_last(merged(a, b.drop_last()), bl, item);
            if key_before(key, bl.rank_key()) {
                lemma_put_merged(a, b.drop_last(), item);
                let longer = put(b, item);
                assert(longer.drop_last() =~= put(b.drop_last(), item));
                assert(longer.last() == bl);
            } else {
                let longer = put(b, item);
                assert(longer.drop_last() =~= b);
                assert(longer.last() == item);
                if key_before(key, al.rank_key()) {
                    lemma_key_total(key, bl.rank_key());
                    lemma_key_chain(bl.rank_key(), key, al.rank_key());
                }
            }
        }
    }
}

/// Ordering two halves and merging them orders the whole.
pub proof fn lemma_ordered_merge<T: Ranked>(a: Seq<T>, b: Seq<T>)
    ensures
        ordered(a + b) == merged(ordered(a), ordered(b)),
    decreases b.len(),
{
    lemma_ordered_in_order(a);
    if b.len() == 0 {
        assert(a + b =~= a);
    } else {
        assert((a + b).drop_last() =~= a + b.drop_last());
        lemma_ordered_merge(a, b.drop_last());
        lemma_ordered_in_order(b.drop_last());
        lemma_put_merged(ordered(a), ordered(b.drop_last()), b.last());
    }
}

fn reversed<T>(list: Vec<T>) -> (r: Vec<T>)
    ensures
        r@ == list@.reverse(),
{
    let mut source = list;
    let ghost whole = source@;
    let mut out: Vec<T> = Vec::new();
    while source.len() > 0
        invariant
            source@.len() <= whole.len(),
            source@ == whole.take(source@.len() as int),
            out@.len() + source@.len() == whole.len(),
            forall|i: int| 0 <= i < out@.len() ==> out@[i] == whole[whole.len() - 1 - i],
        decreases source@.len(),
    {
        match source.pop() {
            Some(item) => {
                out.push(item);
            },
            None => {},
        }
    }
    proof {
        assert(out@ =~= whole.reverse());
    }
    out
}

fn merge_lists<T: Ranked>(a: Vec<T>, b: Vec<T>) -> (r: Vec<T>)
    ensures
        r@ == merged(a@, b@),
{
    let mut left = a;
    let mut right = b;
    let ghost whole = merged(left@, right@);
    let mut tail: Vec<T> = Vec::new();
    proof {
        assert(Seq::<T>::empty().reverse() =~= Seq::<T>::empty());
        assert(whole + tail@.reverse() =~= whole);
    }
    while left.len() > 0 && right.len() > 0
        invariant
            whole == merged(left@, right@) + tail@.reverse(),
        decreases left@.len() + right@.len(),
    {
        let ghost before = tail@;
        let ghost l = left@;
        let ghost r = right@;
        if right[right.len() - 1].outranks(&left[left.len() - 1]) {
            match left.pop() {
                Some(item) => {
                    tail.push(item);
                    proof {
                        assert(left@ =~= l.drop_last());
                        assert(tail@.reverse() =~= seq![item] + before.reverse());
                        assert(merged(l, r) + before.reverse() =~= merged(left@, right@)
                            + tail@.reverse());
                    }
                },
                None => {},
            }
        } else {
            match right.pop() {
                Some(item) => {
                    tail.push(item);
                    proof {
                        assert(right@ =~= r.drop_last());
                        assert(tail@.reverse() =~= seq![item] + before.reverse());
                        assert(merged(l, r) + before.reverse() =~= merged(left@, right@)
                            + tail@.reverse());
                    }
                },
                None => {},
            }
        }
    }
    let mut rest = reversed(tail);
    let mut out = left;
    proof {
        if right@.len() > 0 {
            assert(out@ + right@ =~= right@);
        } else {
            assert(out@ + right@ =~= out@);
        }
    }
    out.append(&mut right);
    out.append(&mut rest);
    out
}

/// Sorts into order, equal items as they came.
pub fn sort_in_order<T: Ranked>(list: Vec<T>) -> (r: Vec<T>)
    ensures
        r@ == ordered(list@),
        in_order(r@),
    decreases list@.len(),
{
    proof {
        lemma_ordered_in_order(list@);
    }
    let n: usize = list.len();
    if n == 0 {
        proof {
            assert(ordered(list@) =~= list@);
        }
        return list;
    }
    if n == 1 {
        proof {
            assert(list@.drop_last() =~= Seq::<T>::empty());
            lemma_put_ends(Seq::<T>::empty(), list@[0]);
            assert(ordered(list@) =~= list@);
        }
        return list;
    }
    let ghost whole = list@;
    let mut front = list;
    let back = front.split_off(n / 2);
    proof {
        assert(front@ + back@ =~= whole);
        lemma_ordered_merge(front@, back@);
    }
    let left = sort_in_order(front);
    let right = sort_in_order(back);
    merge_lists(left, right)
}

// ---------------------------------------------------------------------------
// What comes first
// ---------------------------------------------------------------------------

/// What a launch rule pins comes before what a plugin offers, that before what is shown in the
/// order of launching, and that before what is found by its score.
pub proof fn lemma_kinds_come_in_this_order(a: RankKey, b: RankKey)
    ensures
        a.priority == priority_of(ResultRankingKind::QueryLaunchRule) && b.priority == priority_of(
            ResultRankingKind::Plugin,
        ) ==> key_before(a, b),
        a.priority == priority_of(ResultRankingKind::Plugin) && b.priority == priority_of(
            ResultRankingKind::RecentOrder,
        ) ==> key_before(a, b),
        a.priority == priority_of(ResultRankingKind::RecentOrder) && b.priority == priority_of(
            ResultRankingKind::Heuristic,
        ) ==> key_before(a, b),
{
}

/// Within a kind the higher score comes first; with one score the title that is less, then
/// the subtitle that is less, then what came earlier. Nothing else decides.
pub proof fn lemma_scores_then_names(a: RankKey, b: RankKey)
    requires
        a.priority == b.priority,
    ensures
        a.score > b.score ==> key_before(a, b) && !key_before(b, a),
        a.score == b.score && text::text_less(a.title, b.title) ==> key_before(a, b) && !key_before(
            b,
            a,
        ),
        a.score == b.score && a.title == b.title && text::text_less(a.subtitle, b.subtitle)
            ==> key_before(a, b) && !key_before(b, a),
        a.score == b.score && a.title == b.title && a.subtitle == b.subtitle ==> (key_before(a, b)
            <==> a.sequence < b.sequence),
{
    text::lemma_text_less_total(a.title, b.title);
    text::lemma_text_less_total(a.subtitle, b.subtitle);
}

/// A list that is put in order and cut keeps the best: nothing that was left out comes before
/// anything that was kept.
pub proof fn lemma_the_best_are_kept<T: Ranked>(items: Seq<T>, n: int, i: int, j: int)
    requires
        0 <= n,
        0 <= i < first(ordered(items), n).len() <= j < items.len(),
    ensures
        first(ordered(items), n).len() <= n,
        ordered(items).len() == items.len(),
        first(ordered(items), n)[i] == ordered(items)[i],
        !key_before(ordered(items)[j].rank_key(), first(ordered(items), n)[i].rank_key()),
{
    lemma_ordered_in_order(items);
    lemma_ordered_same_items(items);
    ordered(items).to_multiset_ensures();
    items.to_multiset_ensures();
}

} // verus!
