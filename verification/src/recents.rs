//! Items that were launched before, as lines of text: a score, a sign and a path.
//!
//! Scores are kept as the texts that note them; their values are worked out by the
//! callers.

use crate::document;
use crate::ordering;
use crate::places;
use crate::text;
use vstd::prelude::*;

verus! {

/// The form in which the paths of items are compared.
pub fn recent_item_key(path: &str) -> (r: String)
    ensures
        r@ == text::fold(path@),
{
    text::fold_text(path)
}

/// The parts of a line: whether the item counts, its score and its path.
#[derive(Debug, PartialEq, Eq)]
pub struct RecentParts {
    pub enabled: bool,
    pub score: String,
    pub path: String,
}

/// The parts of a line; none where it is blank, a comment, without a sign or
/// without a path.
pub open spec fn parts_of(entry: Seq<char>) -> Option<(bool, Seq<char>, Seq<char>)> {
    let line = text::trimmed(entry);
    if line.len() == 0 || line[0] == '#' || line[0] == ';' {
        None
    } else {
        match document::cut(line, ">>>"@) {
            Some((score, path)) => if text::trimmed(path).len() == 0 {
                None
            } else {
                Some((true, text::trimmed(score), text::trimmed(path)))
            },
            None => match document::cut(line, "<<<"@) {
                Some((score, path)) => if text::trimmed(path).len() == 0 {
                    None
                } else {
                    Some((false, text::trimmed(score), text::trimmed(path)))
                },
                None => None,
            },
        }
    }
}

fn parts_from(enabled: bool, score: &[char], path: &[char]) -> (r: Option<RecentParts>)
    ensures
        match r {
            None => text::trimmed(path@).len() == 0,
            Some(parts) => text::trimmed(path@).len() > 0 && parts.enabled == enabled
                && parts.score@ == text::trimmed(score@) && parts.path@ == text::trimmed(path@),
        },
{
    let plain = text::trim_chars(path);
    if plain.len() == 0 {
        return None;
    }
    Some(
        RecentParts {
            enabled,
            score: text::string_of(text::trim_chars(score)),
            path: text::string_of(plain),
        },
    )
}

/// Takes a line apart.
pub fn split_recent_entry(entry: &str) -> (r: Option<RecentParts>)
    ensures
        match parts_of(entry@) {
            None => r is None,
            Some((enabled, score, path)) => r matches Some(parts) && parts.enabled == enabled
                && parts.score@ == score && parts.path@ == path,
        },
{
    let chars = text::chars_of(entry);
    let line = text::trim_chars(chars.as_slice());
    if line.len() == 0 || line[0] == '#' || line[0] == ';' {
        return None;
    }
    match document::cut_chars(line, ">>>") {
        Some((score, path)) => parts_from(true, score, path),
        None => match document::cut_chars(line, "<<<") {
            Some((score, path)) => parts_from(false, score, path),
            None => None,
        },
    }
}

/// The line of an item.
pub open spec fn line_of(enabled: bool, score: Seq<char>, path: Seq<char>) -> Seq<char> {
    score + (if enabled {
        ">>>"@
    } else {
        "<<<"@
    }) + path
}

/// Writes the line of an item.
pub fn recent_config_entry_line(enabled: bool, score: &str, path: &str) -> (r: String)
    ensures
        r@ == line_of(enabled, score@, path@),
{
    text::cat3(
        score,
        if enabled {
            ">>>"
        } else {
            "<<<"
        },
        path,
    )
}

/// A text of lines, each with a line break behind it.
pub open spec fn text_of(items: Seq<Seq<char>>) -> Seq<char> {
    let joined = text::join(items, "\n"@);
    if joined.len() > 0 {
        joined + "\n"@
    } else {
        joined
    }
}

/// Writes lines.
pub fn recent_items_to_text(items: &[String]) -> (r: String)
    ensures
        r@ == text_of(text::texts(items@)),
{
    let mut out = text::join_texts(items, "\n");
    if !out.as_str().is_empty() {
        out.append("\n");
    }
    out
}

/// Exchanges the lines of a text that are items, of which it is known which they
/// are, for those of another text.
pub fn merge_recent_document(existing: &str, known: &[bool], replacement: &str) -> (r: String)
    requires
        known@.len() == text::lines(existing@).len(),
    ensures
        r@ == document::merged(existing@, known@, text::lines(replacement@)),
{
    let lines = text::split_lines(replacement);
    document::merge_known_lines(existing, known, lines.as_slice())
}

/// Exchanges the lines of a text that are items for the given ones.
pub fn merge_recent_items_text(existing: &str, known: &[bool], items: &[String]) -> (r: String)
    requires
        known@.len() == text::lines(existing@).len(),
    ensures
        r@ == document::merged(
            existing@,
            known@,
            text::lines(text_of(text::texts(items@))),
        ),
{
    let replacement = recent_items_to_text(items);
    merge_recent_document(existing, known, replacement.as_str())
}

// ---------------------------------------------------------------------------
// Lists of items
// ---------------------------------------------------------------------------

/// The places of the first `n` keys that none before them equals, up to a limit.
pub open spec fn first_places(keys: Seq<Seq<char>>, limit: int, n: int) -> Seq<int>
    decreases n,
{
    if n <= 0 {
        Seq::empty()
    } else {
        let before = first_places(keys, limit, n - 1);
        if before.len() < limit && !keys.take(n - 1).contains(keys[n - 1]) {
            before.push(n - 1)
        } else {
            before
        }
    }
}

/// Places as numbers.
pub open spec fn place_values(v: Seq<usize>) -> Seq<int> {
    Seq::new(v.len(), |i: int| v[i] as int)
}

/// The places of the keys that none before them equals, up to a limit.
pub fn first_of_each(keys: &[String], limit: usize) -> (r: Vec<usize>)
    ensures
        place_values(r@) == first_places(text::texts(keys@), limit as int, keys@.len() as int),
{
    let ghost all = text::texts(keys@);
    let mut out: Vec<usize> = Vec::new();
    let mut i: usize = 0;
    proof {
        assert(place_values(out@) =~= Seq::<int>::empty());
    }
    while i < keys.len()
        invariant
            i <= keys.len(),
            all == text::texts(keys@),
            place_values(out@) == first_places(all, limit as int, i as int),
        decreases keys.len() - i,
    {
        let ghost before = out@;
        let earlier = vstd::slice::slice_subrange(keys, 0, i);
        proof {
            assert(text::texts(earlier@) =~= all.take(i as int));
            assert(place_values(out@).len() == out@.len());
        }
        if out.len() < limit && !text::contains_text(earlier, keys[i].as_str()) {
            out.push(i);
            proof {
                assert(place_values(out@) =~= place_values(before).push(i as int));
            }
        }
        i += 1;
    }
    out
}

/// The first `n` lines but those with a key.
pub open spec fn without_key(
    items: Seq<Seq<char>>,
    keys: Seq<Option<String>>,
    key: Seq<char>,
    n: int,
) -> Seq<Seq<char>>
    decreases n,
{
    if n <= 0 {
        Seq::empty()
    } else {
        let before = without_key(items, keys, key, n - 1);
        if keys[n - 1] is Some && keys[n - 1]->0@ == key {
            before
        } else {
            before.push(items[n - 1])
        }
    }
}

/// Takes the lines with a key away.
pub fn remove_recent_item(items: &[String], keys: &[Option<String>], key: &str) -> (r: Vec<String>)
    requires
        keys@.len() == items@.len(),
    ensures
        text::texts(r@) == without_key(
            text::texts(items@),
            keys@,
            key@,
            items@.len() as int,
        ),
{
    let ghost all = text::texts(items@);
    let mut out: Vec<String> = Vec::new();
    let mut i: usize = 0;
    proof {
        assert(text::texts(out@) =~= Seq::<Seq<char>>::empty());
    }
    while i < items.len()
        invariant
            i <= items.len(),
            keys@.len() == items@.len(),
            all == text::texts(items@),
            text::texts(out@) == without_key(all, keys@, key@, i as int),
        decreases items.len() - i,
    {
        let ghost before = out@;
        let same = match &keys[i] {
            Some(own) => text::same_text(own.as_str(), key),
            None => false,
        };
        if !same {
            out.push(items[i].clone());
            proof {
                assert(text::texts(out@) =~= text::texts(before).push(all[i as int]));
            }
        }
        i += 1;
    }
    out
}

/// Lines with a new one in front of those with other keys, up to a limit.
pub open spec fn recorded(
    items: Seq<Seq<char>>,
    keys: Seq<Option<String>>,
    key: Seq<char>,
    line: Seq<char>,
    limit: int,
) -> Seq<Seq<char>> {
    ordering::first(seq![line] + without_key(items, keys, key, items.len() as int), limit)
}

/// Puts a new line in front of those with other keys, up to a limit.
pub fn record_recent_item(
    items: &[String],
    keys: &[Option<String>],
    key: &str,
    line: String,
    limit: usize,
) -> (r: Vec<String>)
    requires
        keys@.len() == items@.len(),
    ensures
        text::texts(r@) == ordering::first(
            seq![line@] + without_key(text::texts(items@), keys@, key@, items@.len() as int),
            limit as int,
        ),
        text::texts(r@) == recorded(
            text::texts(items@),
            keys@,
            key@,
            line@,
            limit as int,
        ),
        limit > 0 ==> r@.len() > 0 && r@[0]@ == line@,
{
    let mut out = remove_recent_item(items, keys, key);
    let ghost rest = text::texts(out@);
    out.insert(0, line);
    proof {
        assert(text::texts(out@) =~= seq![line@] + rest);
        assert(text::texts(out@).len() == out@.len());
    }
    let ghost whole = text::texts(out@);
    if out.len() > limit {
        out.truncate(limit);
        proof {
            assert(text::texts(out@) =~= whole.take(limit as int));
        }
    }
    proof {
        if limit > 0 {
            assert(text::texts(out@)[0] == line@);
        }
    }
    out
}

/// The last of the first `n` places with a key.
pub open spec fn last_place(keys: Seq<Option<String>>, key: Seq<char>, n: int) -> Option<int>
    decreases n,
{
    if n <= 0 {
        None
    } else if keys[n - 1] is Some && keys[n - 1]->0@ == key {
        Some(n - 1)
    } else {
        last_place(keys, key, n - 1)
    }
}

/// The entry that counts for a key: the last one with it.
pub fn recent_lookup(keys: &[Option<String>], key: &str) -> (r: Option<usize>)
    ensures
        match last_place(keys@, key@, keys@.len() as int) {
            None => r is None,
            Some(i) => r matches Some(found) && found == i,
        },
{
    let mut i: usize = keys.len();
    while i > 0
        invariant
            i <= keys.len(),
            last_place(keys@, key@, keys@.len() as int) == last_place(keys@, key@, i as int),
        decreases i,
    {
        let same = match &keys[i - 1] {
            Some(own) => text::same_text(own.as_str(), key),
            None => false,
        };
        if same {
            return Some(i - 1);
        }
        i -= 1;
    }
    None
}


// ---------------------------------------------------------------------------
// Lines are read back
// ---------------------------------------------------------------------------

/// The line of an item is read back as it was written. The score is a text without the
/// signs, and where the item does not count, its path is without the sign of one that
/// does.
pub proof fn lemma_line_round_trip(enabled: bool, score: Seq<char>, path: Seq<char>)
    requires
        text::trimmed(score) == score,
        !score.contains('>') && !score.contains('<'),
        score.len() > 0 ==> score[0] != '#' && score[0] != ';',
        text::trimmed(path) == path,
        path.len() > 0,
        enabled || !text::has_infix(path, ">>>"@),
    ensures
        parts_of(line_of(enabled, score, path)) == Some((enabled, score, path)),
{
    reveal_strlit(">>>");
    reveal_strlit("<<<");
    let sign = if enabled {
        ">>>"@
    } else {
        "<<<"@
    };
    let line = line_of(enabled, score, path);
    let n = score.len() as int;
    text::lemma_trimmed_ends(path);
    if n > 0 {
        text::lemma_trimmed_ends(score);
        assert(line[0] == score[0]);
    } else {
        assert(line[0] == sign[0]);
    }
    assert(line.last() == path.last());
    text::lemma_trimmed_stays(line);
    assert forall|k: int| 0 <= k < n implies line[k] != '>' && line[k] != '<' by {
        assert(line[k] == score[k]);
        assert(score.contains(score[k]));
    }
    assert(line.subrange(n, n + 3) =~= sign);
    assert forall|k: int| 0 <= k < n implies !text::occurs_at(line, ">>>"@, k)
        && !text::occurs_at(line, "<<<"@, k) by {
        if text::occurs_at(line, ">>>"@, k) {
            assert(line.subrange(k, k + 3)[0] == line[k]);
        }
        if text::occurs_at(line, "<<<"@, k) {
            assert(line.subrange(k, k + 3)[0] == line[k]);
        }
    }
    document::lemma_place_is(line, sign, 0, n);
    assert(line.take(n) =~= score);
    assert(line.skip(n + 3) =~= path);
    if !enabled {
        assert forall|k: int| 0 <= k implies !text::occurs_at(line, ">>>"@, k) by {
            if text::occurs_at(line, ">>>"@, k) {
                let found = line.subrange(k, k + 3);
                assert(found[0] == line[k] && found[1] == line[k + 1] && found[2] == line[k + 2]);
                if k < n + 3 {
                    if k >= n {
                        assert(line[k] == sign[k - n]);
                    }
                } else {
                    let p = k - n - 3;
                    assert(path.subrange(p, p + 3) =~= found);
                    assert(text::occurs_at(path, ">>>"@, p));
                }
            }
        }
        document::lemma_place_none(line, ">>>"@, 0);
    }
}

/// Items that are written one below the other are read back.
pub proof fn lemma_items_round_trip(items: Seq<Seq<char>>)
    requires
        forall|i: int|
            0 <= i < items.len() ==> text::is_plain_line(#[trigger] items[i]) && items[i].len()
                > 0,
    ensures
        text::lines(text_of(items)) == items,
{
    if items.len() > 0 {
        text::lemma_joined_lines(items);
        let joined = text::join(items, "\n"@);
        assert(joined.len() > 0) by {
            assert(items.last().len() > 0);
            if items.len() > 1 {
                assert(joined == text::join(items.drop_last(), "\n"@) + "\n"@ + items.last());
            }
        }
        text::lemma_lines_round_trip(items);
    } else {
        assert(items =~= Seq::<Seq<char>>::empty());
        text::lemma_lines_round_trip(items);
    }
}

// ---------------------------------------------------------------------------
// What is kept
// ---------------------------------------------------------------------------

proof fn lemma_kept(
    items: Seq<Seq<char>>,
    keys: Seq<Option<String>>,
    key: Seq<char>,
    n: int,
) -> (kept: Seq<int>)
    requires
        0 <= n <= items.len(),
        keys.len() == items.len(),
    ensures
        places::picks_all(kept, n, |p: int| !(keys[p] is Some && keys[p]->0@ == key)),
        without_key(items, keys, key, n) == places::picked(items, kept),
    decreases n,
{
    let wanted = |p: int| !(keys[p] is Some && keys[p]->0@ == key);
    if n > 0 {
        let kept = lemma_kept(items, keys, key, n - 1);
        places::lemma_pick_one_more(kept, n - 1, wanted);
        if wanted(n - 1) {
            assert(places::picked(items, kept.push(n - 1)) =~= places::picked(items, kept).push(
                items[n - 1],
            ));
            kept.push(n - 1)
        } else {
            kept
        }
    } else {
        assert(places::picked(items, Seq::<int>::empty()) =~= Seq::<Seq<char>>::empty());
        Seq::empty()
    }
}

/// Taking a key away leaves every line with another key or none, in its order, and no other.
pub proof fn lemma_others_stay(items: Seq<Seq<char>>, keys: Seq<Option<String>>, key: Seq<char>)
    requires
        keys.len() == items.len(),
    ensures
        ({
            let wanted = |p: int| !(keys[p] is Some && keys[p]->0@ == key);
            exists|kept: Seq<int>| #[trigger]
                places::picks_all(kept, items.len() as int, wanted) && without_key(
                    items,
                    keys,
                    key,
                    items.len() as int,
                ) == places::picked(items, kept)
        }),
{
    let kept = lemma_kept(items, keys, key, items.len() as int);
}

/// What is launched becomes the first line; the lines with other keys follow in the order
/// that they had, as many as the limit leaves room for.
pub proof fn lemma_launched_comes_first(
    items: Seq<Seq<char>>,
    keys: Seq<Option<String>>,
    key: Seq<char>,
    line: Seq<char>,
    limit: int,
)
    requires
        keys.len() == items.len(),
        limit > 0,
    ensures
        ({
            let list = recorded(items, keys, key, line, limit);
            let wanted = |p: int| !(keys[p] is Some && keys[p]->0@ == key);
            &&& 0 < list.len() <= limit
            &&& list[0] == line
            &&& exists|kept: Seq<int>| #[trigger]
                places::picks_all(kept, items.len() as int, wanted) && list.len() == (if kept.len() + 1 <= limit {
                    (kept.len() + 1) as int
                } else {
                    limit
                }) && forall|k: int|
                    1 <= k < list.len() ==> #[trigger] list[k] == items[kept[k - 1]]
        }),
{
    let kept = lemma_kept(items, keys, key, items.len() as int);
    let rest = without_key(items, keys, key, items.len() as int);
    let list = recorded(items, keys, key, line, limit);
    assert forall|k: int| 1 <= k < list.len() implies #[trigger] list[k] == items[kept[k - 1]] by {
        assert(list[k] == rest[k - 1]);
    }
}

/// The entry that counts for a key has the key, and no later one has.
pub proof fn lemma_last_entry_counts(keys: Seq<Option<String>>, key: Seq<char>, n: int)
    requires
        0 <= n <= keys.len(),
    ensures
        match last_place(keys, key, n) {
            Some(i) => 0 <= i < n && keys[i] is Some && keys[i]->0@ == key && forall|k: int|
                i < k < n ==> !((#[trigger] keys[k]) is Some && keys[k]->0@ == key),
            None => forall|k: int|
                0 <= k < n ==> !((#[trigger] keys[k]) is Some && keys[k]->0@ == key),
        },
    decreases n,
{
    if n > 0 && !(keys[n - 1] is Some && keys[n - 1]->0@ == key) {
        lemma_last_entry_counts(keys, key, n - 1);
    }
}

proof fn lemma_first_places(keys: Seq<Seq<char>>, limit: int, n: int) -> (all: Seq<int>)
    requires
        0 <= n <= keys.len(),
        limit >= 0,
    ensures
        places::picks_all(
            all,
            n,
            |p: int| forall|m: int| 0 <= m < p ==> #[trigger] keys[m] != keys[p],
        ),
        first_places(keys, limit, n) == ordering::first(all, limit),
    decreases n,
{
    let wanted = |p: int| forall|m: int| 0 <= m < p ==> #[trigger] keys[m] != keys[p];
    if n > 0 {
        let all = lemma_first_places(keys, limit, n - 1);
        let p = n - 1;
        assert(wanted(p) == !keys.take(p).contains(keys[p])) by {
            if keys.take(p).contains(keys[p]) {
                let m = keys.take(p).index_of(keys[p]);
                assert(keys[m] == keys[p]);
            }
            if !wanted(p) {
                let m = choose|m: int| 0 <= m < p && #[trigger] keys[m] == keys[p];
                assert(keys.take(p)[m] == keys[p]);
            }
        }
        places::lemma_pick_one_more(all, p, wanted);
        if wanted(p) {
            let more = all.push(p);
            if all.len() < limit {
                assert(first_places(keys, limit, n) =~= ordering::first(more, limit));
            } else {
                assert(all.take(limit) =~= more.take(limit));
                if all.len() == limit {
                    assert(all.take(limit) =~= all);
                }
            }
            more
        } else {
            all
        }
    } else {
        Seq::empty()
    }
}

/// Of the lines with one key the first counts, and the first of the keys count, up to a
/// limit.
pub proof fn lemma_first_of_each_key(keys: Seq<Seq<char>>, limit: int)
    requires
        limit >= 0,
    ensures
        ({
            let wanted = |p: int| forall|m: int| 0 <= m < p ==> #[trigger] keys[m] != keys[p];
            exists|all: Seq<int>| #[trigger]
                places::picks_all(all, keys.len() as int, wanted) && first_places(
                    keys,
                    limit,
                    keys.len() as int,
                ) == (if all.len() <= limit {
                    all
                } else {
                    all.take(limit)
                })
        }),
{
    let all = lemma_first_places(keys, limit, keys.len() as int);
    if all.len() == limit {
        assert(all.take(limit) =~= all);
    }
}

/// Comments and lines without a path stand for no item; an item has a path without white space
/// around it.
pub proof fn lemma_lines_without_an_item(entry: Seq<char>)
    ensures
        text::trimmed(entry).len() == 0 ==> parts_of(entry) is None,
        text::trimmed(entry).len() > 0 && (text::trimmed(entry)[0] == '#' || text::trimmed(entry)[0]
            == ';') ==> parts_of(entry) is None,
        !text::has_infix(text::trimmed(entry), ">>>"@) && !text::has_infix(
            text::trimmed(entry),
            "<<<"@,
        ) ==> parts_of(entry) is None,
        parts_of(entry) matches Some((enabled, score, path)) ==> path.len() > 0 && text::trimmed(
            path,
        ) == path && text::trimmed(score) == score && (enabled <==> text::has_infix(
            text::trimmed(entry),
            ">>>"@,
        )),
{
    let line = text::trimmed(entry);
    document::lemma_cut_at_the_first(line, ">>>"@);
    document::lemma_cut_at_the_first(line, "<<<"@);
    if let Some((score, path)) = document::cut(line, ">>>"@) {
        text::lemma_stands_in(score, ">>>"@, path);
        text::lemma_trimmed_idempotent(score);
        text::lemma_trimmed_idempotent(path);
    }
    if let Some((score, path)) = document::cut(line, "<<<"@) {
        text::lemma_stands_in(score, "<<<"@, path);
        text::lemma_trimmed_idempotent(score);
        text::lemma_trimmed_idempotent(path);
    }
}

} // verus!
