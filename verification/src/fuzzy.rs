//! Fuzzy matching: the letters of a query found in order in a candidate.

use crate::arith;
use crate::places;
use crate::text;
use crate::types::ScoringConfig;
use vstd::prelude::*;

verus! {

// ---------------------------------------------------------------------------
// Model
// ---------------------------------------------------------------------------

/// The first position from `from` on that holds `x`.
pub open spec fn next_at<T>(candidate: Seq<T>, x: T, from: int) -> Option<int>
    decreases candidate.len() - from,
{
    if from >= candidate.len() {
        None
    } else if candidate[from] == x {
        Some(from)
    } else {
        next_at(candidate, x, from + 1)
    }
}

/// The positions of the query's letters when the first stands at `start` and
/// each further letter is taken at its first position behind the one before.
pub open spec fn greedy_positions<T>(query: Seq<T>, candidate: Seq<T>, start: int) -> Option<
    Seq<int>,
>
    decreases query.len(),
{
    if query.len() <= 1 {
        Some(seq![start])
    } else {
        match greedy_positions(query.drop_last(), candidate, start) {
            None => None,
            Some(before) => match next_at(candidate, query.last(), before.last() + 1) {
                None => None,
                Some(p) => Some(before.push(p)),
            },
        }
    }
}

/// How many neighbours in a list of positions are one apart.
pub open spec fn adjacent_pairs(positions: Seq<int>) -> nat
    decreases positions.len(),
{
    if positions.len() <= 1 {
        0
    } else if positions.last() == positions[positions.len() - 2] + 1 {
        adjacent_pairs(positions.drop_last()) + 1
    } else {
        adjacent_pairs(positions.drop_last())
    }
}

/// The share of the score for the part of the candidate that the query covers.
pub open spec fn length_share(
    query_length: i32,
    candidate_length: i32,
    scoring: ScoringConfig,
) -> int {
    arith::div_toward_zero(
        arith::sat(query_length * arith::max_int(scoring.length_score_weight as int, 0)) as int,
        arith::max_int(candidate_length as int, 1),
    )
}

/// The share of the score for a match near the beginning.
pub open spec fn leftmost_share(first_character_index: i32, scoring: ScoringConfig) -> int {
    arith::max_int(
        arith::sat(
            scoring.leftmost_match_bonus - arith::sat(
                first_character_index * scoring.leftmost_distance_penalty,
            ),
        ) as int,
        0,
    )
}

/// The share of the score for letters that stand side by side.
pub open spec fn compact_share(adjacent: i32, query_length: i32, scoring: ScoringConfig) -> int {
    let weight = arith::max_int(scoring.compact_match_bonus as int, 0);
    if query_length > 1 {
        arith::div_toward_zero(arith::sat(adjacent * weight) as int, query_length - 1)
    } else {
        weight
    }
}

/// The sum of the three shares.
pub open spec fn fuzzy_sum(
    first_character_index: i32,
    adjacent: i32,
    query_length: i32,
    candidate_length: i32,
    scoring: ScoringConfig,
) -> i32 {
    arith::sat(
        arith::sat(
            length_share(query_length, candidate_length, scoring) + leftmost_share(
                first_character_index,
                scoring,
            ),
        ) + compact_share(adjacent, query_length, scoring),
    )
}

/// A length of at least one as a score.
pub open spec fn counted_length(n: nat) -> i32 {
    arith::length_i32(arith::max_int(n as int, 1))
}

/// The score of the greedy match that begins at `start`, if there is one.
pub open spec fn total_at<T>(
    query: Seq<T>,
    candidate: Seq<T>,
    start: int,
    scoring: ScoringConfig,
) -> Option<i32> {
    if candidate[start] != query[0] {
        None
    } else {
        match greedy_positions(query, candidate, start) {
            None => None,
            Some(positions) => Some(
                fuzzy_sum(
                    arith::length_i32(start),
                    arith::length_i32(adjacent_pairs(positions) as int),
                    counted_length(query.len()),
                    counted_length(candidate.len()),
                    scoring,
                ),
            ),
        }
    }
}

/// Among the starts below `n`, the first whose match scores highest.
pub open spec fn best_start<T>(
    query: Seq<T>,
    candidate: Seq<T>,
    scoring: ScoringConfig,
    n: int,
) -> Option<int>
    decreases n,
{
    if n <= 0 {
        None
    } else {
        match (
            best_start(query, candidate, scoring, n - 1),
            total_at(query, candidate, n - 1, scoring),
        ) {
            (before, None) => before,
            (None, Some(_)) => Some(n - 1),
            (Some(b), Some(t)) => if t > total_at(query, candidate, b, scoring)->0 {
                Some(n - 1)
            } else {
                Some(b)
            },
        }
    }
}

/// The best score of a greedy match of the query in the candidate.
pub open spec fn fuzzy<T>(query: Seq<T>, candidate: Seq<T>, scoring: ScoringConfig) -> Option<i32> {
    if query.len() == 0 {
        None
    } else {
        match best_start(query, candidate, scoring, candidate.len() as int) {
            None => None,
            Some(start) => total_at(query, candidate, start, scoring),
        }
    }
}

// ---------------------------------------------------------------------------
// Facts about the model
// ---------------------------------------------------------------------------

proof fn lemma_next_at<T>(candidate: Seq<T>, x: T, from: int)
    requires
        0 <= from,
    ensures
        match next_at(candidate, x, from) {
            Some(p) => from <= p < candidate.len() && candidate[p] == x && forall|k: int|
                from <= k < p ==> candidate[k] != x,
            None => forall|k: int| from <= k < candidate.len() ==> candidate[k] != x,
        },
    decreases candidate.len() - from,
{
    if from < candidate.len() && candidate[from] != x {
        lemma_next_at(candidate, x, from + 1);
    }
}

proof fn lemma_next_at_is<T>(candidate: Seq<T>, x: T, from: int, p: int)
    requires
        0 <= from <= p < candidate.len(),
        candidate[p] == x,
        forall|k: int| from <= k < p ==> candidate[k] != x,
    ensures
        next_at(candidate, x, from) == Some(p),
{
    lemma_next_at(candidate, x, from);
}

/// The greedy positions are as many as the query's letters, they rise, and
/// each holds its letter.
pub proof fn lemma_greedy_positions<T>(query: Seq<T>, candidate: Seq<T>, start: int)
    requires
        query.len() > 0,
        0 <= start < candidate.len(),
        candidate[start] == query[0],
    ensures
        match greedy_positions(query, candidate, start) {
            Some(p) => {
                &&& p.len() == query.len()
                &&& p[0] == start
                &&& forall|k: int| 0 <= k < p.len() ==> 0 <= #[trigger] p[k] < candidate.len()
                &&& forall|k: int| 0 <= k < p.len() ==> candidate[#[trigger] p[k]] == query[k]
                &&& forall|k: int, m: int| 0 <= k < m < p.len() ==> p[k] < p[m]
                &&& adjacent_pairs(p) < query.len()
            },
            None => true,
        },
    decreases query.len(),
{
    if query.len() > 1 {
        lemma_greedy_positions(query.drop_last(), candidate, start);
        match greedy_positions(query.drop_last(), candidate, start) {
            Some(before) => {
                lemma_next_at(candidate, query.last(), before.last() + 1);
                match next_at(candidate, query.last(), before.last() + 1) {
                    Some(p) => {
                        assert(before.push(p).drop_last() =~= before);
                    },
                    None => {},
                }
            },
            None => {},
        }
    }
}

/// If a prefix of the query finds no place, the whole query finds none.
proof fn lemma_greedy_prefix_none<T>(query: Seq<T>, candidate: Seq<T>, start: int, n: int)
    requires
        1 <= n <= query.len(),
        greedy_positions(query.take(n), candidate, start) is None,
    ensures
        greedy_positions(query, candidate, start) is None,
    decreases query.len(),
{
    if n < query.len() {
        assert(query.drop_last().take(n) =~= query.take(n));
        lemma_greedy_prefix_none(query.drop_last(), candidate, start, n);
    } else {
        assert(query.take(n) =~= query);
    }
}

/// The best start is a start that matches, and no match scores higher.
pub proof fn lemma_best_start<T>(
    query: Seq<T>,
    candidate: Seq<T>,
    scoring: ScoringConfig,
    n: int,
)
    requires
        0 <= n <= candidate.len(),
    ensures
        match best_start(query, candidate, scoring, n) {
            Some(b) => {
                &&& 0 <= b < n
                &&& total_at(query, candidate, b, scoring) is Some
                &&& forall|k: int|
                    0 <= k < n ==> (#[trigger] total_at(query, candidate, k, scoring) matches Some(t)
                        ==> t <= total_at(query, candidate, b, scoring)->0)
                &&& forall|k: int|
                    0 <= k < b ==> (#[trigger] total_at(query, candidate, k, scoring) matches Some(t)
                        ==> t < total_at(query, candidate, b, scoring)->0)
            },
            None => forall|k: int|
                0 <= k < n ==> #[trigger] total_at(query, candidate, k, scoring) is None,
        },
    decreases n,
{
    if n > 0 {
        lemma_best_start(query, candidate, scoring, n - 1);
    }
}

// ---------------------------------------------------------------------------
// Scores
// ---------------------------------------------------------------------------

/// The shares of a fuzzy score: length, leftmost, compact.
fn fuzzy_shares(
    first_character_index: i32,
    adjacent: i32,
    query_length: i32,
    candidate_length: i32,
    scoring: &ScoringConfig,
) -> (r: (i32, i32, i32))
    ensures
        r.0 == length_share(query_length, candidate_length, *scoring),
        r.1 == leftmost_share(first_character_index, *scoring),
        r.2 == compact_share(adjacent, query_length, *scoring),
{
    let length: i32 = arith::div_i32(
        arith::sat_mul(query_length, arith::max_i32(scoring.length_score_weight, 0)),
        arith::max_i32(candidate_length, 1),
    );
    let leftmost: i32 = arith::max_i32(
        arith::sat_sub(
            scoring.leftmost_match_bonus,
            arith::sat_mul(first_character_index, scoring.leftmost_distance_penalty),
        ),
        0,
    );
    let weight: i32 = arith::max_i32(scoring.compact_match_bonus, 0);
    let compact: i32 = if query_length > 1 {
        arith::div_i32(arith::sat_mul(adjacent, weight), query_length - 1)
    } else {
        weight
    };
    (length, leftmost, compact)
}

/// The sum of the shares of a fuzzy score.
pub fn fuzzy_total(
    first_character_index: i32,
    adjacent: i32,
    query_length: i32,
    candidate_length: i32,
    scoring: &ScoringConfig,
) -> (r: i32)
    ensures
        r == fuzzy_sum(first_character_index, adjacent, query_length, candidate_length, *scoring),
{
    let (length, leftmost, compact): (i32, i32, i32) = fuzzy_shares(
        first_character_index,
        adjacent,
        query_length,
        candidate_length,
        scoring,
    );
    arith::sat_add(arith::sat_add(length, leftmost), compact)
}


/// The number of adjacent pairs in the greedy match that begins at `start`.
fn match_ascii_from(query: &[u8], candidate: &[u8], start: usize) -> (r: Option<usize>)
    requires
        query.len() > 0,
        start < candidate.len(),
        candidate@[start as int] == query@[0],
    ensures
        match greedy_positions(query@, candidate@, start as int) {
            Some(positions) => r == Some(adjacent_pairs(positions) as usize) && adjacent_pairs(
                positions,
            ) <= usize::MAX,
            None => r is None,
        },
{
    let mut next: usize = start + 1;
    let mut adjacent: usize = 0;
    let mut k: usize = 1;
    let ghost mut positions: Seq<int> = seq![start as int];
    proof {
        assert(query@.take(1).len() == 1);
    }
    while k < query.len()
        invariant
            1 <= k <= query@.len(),
            start < candidate@.len(),
            candidate@[start as int] == query@[0],
            greedy_positions(query@.take(k as int), candidate@, start as int) == Some(positions),
            positions.len() == k,
            next == positions.last() + 1,
            next <= candidate@.len(),
            adjacent == adjacent_pairs(positions),
            adjacent < k,
        decreases query.len() - k,
    {
        let wanted = query[k];
        let mut at: usize = next;
        while at < candidate.len() && candidate[at] != wanted
            invariant
                next <= at <= candidate@.len(),
                forall|m: int| next <= m < at ==> candidate@[m] != wanted,
            decreases candidate.len() - at,
        {
            at += 1;
        }
        proof {
            let longer = query@.take(k + 1);
            assert(longer.drop_last() =~= query@.take(k as int));
            assert(longer.last() == wanted);
            lemma_next_at(candidate@, wanted, next as int);
            if at == candidate@.len() {
                lemma_greedy_prefix_none(query@, candidate@, start as int, k + 1);
            } else {
                lemma_next_at_is(candidate@, wanted, next as int, at as int);
                assert(positions.push(at as int).drop_last() =~= positions);
            }
        }
        if at >= candidate.len() {
            return None;
        }
        if at == next {
            adjacent += 1;
        }
        proof {
            positions = positions.push(at as int);
        }
        next = at + 1;
        k += 1;
    }
    proof {
        assert(query@.take(k as int) =~= query@);
    }
    Some(adjacent)
}

/// The best fuzzy score of a query in a candidate.
pub fn fuzzy_score_ascii(query: &[u8], candidate: &[u8], scoring: &ScoringConfig) -> (r: Option<i32>)
    ensures
        r == fuzzy(query@, candidate@, *scoring),
{
    if query.len() == 0 {
        return None;
    }
    let query_length: i32 = arith::length_as_i32(query.len());
    let candidate_length: i32 = arith::length_as_i32(
        if candidate.len() > 1 {
            candidate.len()
        } else {
            1
        },
    );
    let first = query[0];
    let mut best: Option<i32> = None;
    let mut start: usize = 0;
    while start < candidate.len()
        invariant
            start <= candidate@.len(),
            query@.len() > 0,
            first == query@[0],
            query_length == counted_length(query@.len()),
            candidate_length == counted_length(candidate@.len()),
            best == (match best_start(query@, candidate@, *scoring, start as int) {
                Some(b) => total_at(query@, candidate@, b, *scoring),
                None => None,
            }),
        decreases candidate.len() - start,
    {
        proof {
            lemma_best_start(query@, candidate@, *scoring, start as int);
        }
        if candidate[start] == first {
            match match_ascii_from(query, candidate, start) {
                Some(adjacent) => {
                    let total: i32 = fuzzy_total(
                        arith::length_as_i32(start),
                        arith::length_as_i32(adjacent),
                        query_length,
                        candidate_length,
                        scoring,
                    );
                    match best {
                        Some(current) => if total > current {
                            best = Some(total);
                        },
                        None => {
                            best = Some(total);
                        },
                    }
                },
                None => {},
            }
        }
        start += 1;
    }
    best
}

/// The number of adjacent pairs in the greedy match that begins at `start`.
fn match_chars_from(query: &[char], candidate: &[char], start: usize) -> (r: Option<usize>)
    requires
        query.len() > 0,
        start < candidate.len(),
        candidate@[start as int] == query@[0],
    ensures
        match greedy_positions(query@, candidate@, start as int) {
            Some(positions) => r == Some(adjacent_pairs(positions) as usize) && adjacent_pairs(
                positions,
            ) <= usize::MAX,
            None => r is None,
        },
{
    let mut next: usize = start + 1;
    let mut adjacent: usize = 0;
    let mut k: usize = 1;
    let ghost mut positions: Seq<int> = seq![start as int];
    proof {
        assert(query@.take(1).len() == 1);
    }
    while k < query.len()
        invariant
            1 <= k <= query@.len(),
            start < candidate@.len(),
            candidate@[start as int] == query@[0],
            greedy_positions(query@.take(k as int), candidate@, start as int) == Some(positions),
            positions.len() == k,
            next == positions.last() + 1,
            next <= candidate@.len(),
            adjacent == adjacent_pairs(positions),
            adjacent < k,
        decreases query.len() - k,
    {
        let wanted = query[k];
        let mut at: usize = next;
        while at < candidate.len() && candidate[at] != wanted
            invariant
                next <= at <= candidate@.len(),
                forall|m: int| next <= m < at ==> candidate@[m] != wanted,
            decreases candidate.len() - at,
        {
            at += 1;
        }
        proof {
            let longer = query@.take(k + 1);
            assert(longer.drop_last() =~= query@.take(k as int));
            assert(longer.last() == wanted);
            lemma_next_at(candidate@, wanted, next as int);
            if at == candidate@.len() {
                lemma_greedy_prefix_none(query@, candidate@, start as int, k + 1);
            } else {
                lemma_next_at_is(candidate@, wanted, next as int, at as int);
                assert(positions.push(at as int).drop_last() =~= positions);
            }
        }
        if at >= candidate.len() {
            return None;
        }
        if at == next {
            adjacent += 1;
        }
        proof {
            positions = positions.push(at as int);
        }
        next = at + 1;
        k += 1;
    }
    proof {
        assert(query@.take(k as int) =~= query@);
    }
    Some(adjacent)
}

/// The best fuzzy score of a query in a candidate.
pub fn fuzzy_score_of_chars(query: &[char], candidate: &[char], scoring: &ScoringConfig) -> (r: Option<i32>)
    ensures
        r == fuzzy(query@, candidate@, *scoring),
{
    if query.len() == 0 {
        return None;
    }
    let query_length: i32 = arith::length_as_i32(query.len());
    let candidate_length: i32 = arith::length_as_i32(
        if candidate.len() > 1 {
            candidate.len()
        } else {
            1
        },
    );
    let first = query[0];
    let mut best: Option<i32> = None;
    let mut start: usize = 0;
    while start < candidate.len()
        invariant
            start <= candidate@.len(),
            query@.len() > 0,
            first == query@[0],
            query_length == counted_length(query@.len()),
            candidate_length == counted_length(candidate@.len()),
            best == (match best_start(query@, candidate@, *scoring, start as int) {
                Some(b) => total_at(query@, candidate@, b, *scoring),
                None => None,
            }),
        decreases candidate.len() - start,
    {
        proof {
            lemma_best_start(query@, candidate@, *scoring, start as int);
        }
        if candidate[start] == first {
            match match_chars_from(query, candidate, start) {
                Some(adjacent) => {
                    let total: i32 = fuzzy_total(
                        arith::length_as_i32(start),
                        arith::length_as_i32(adjacent),
                        query_length,
                        candidate_length,
                        scoring,
                    );
                    match best {
                        Some(current) => if total > current {
                            best = Some(total);
                        },
                        None => {
                            best = Some(total);
                        },
                    }
                },
                None => {},
            }
        }
        start += 1;
    }
    best
}


// ---------------------------------------------------------------------------
// ASCII bytes and characters score alike
// ---------------------------------------------------------------------------

/// The same letters are equal in two pairs of a query and a candidate.
spec fn same_matches<A, B>(q1: Seq<A>, c1: Seq<A>, q2: Seq<B>, c2: Seq<B>) -> bool {
    &&& q1.len() == q2.len()
    &&& c1.len() == c2.len()
    &&& forall|i: int, j: int|
        #![trigger q1[i], c1[j]]
        #![trigger q2[i], c2[j]]
        0 <= i < q1.len() && 0 <= j < c1.len() ==> ((q1[i] == c1[j]) <==> (q2[i] == c2[j]))
}

proof fn lemma_same_next<A, B>(
    q1: Seq<A>,
    c1: Seq<A>,
    q2: Seq<B>,
    c2: Seq<B>,
    i: int,
    from: int,
)
    requires
        same_matches(q1, c1, q2, c2),
        0 <= i < q1.len(),
        0 <= from,
    ensures
        next_at(c1, q1[i], from) == next_at(c2, q2[i], from),
    decreases c1.len() - from,
{
    if from < c1.len() {
        assert((q1[i] == c1[from]) <==> (q2[i] == c2[from]));
        lemma_same_next(q1, c1, q2, c2, i, from + 1);
    }
}

proof fn lemma_same_greedy<A, B>(
    q1: Seq<A>,
    c1: Seq<A>,
    q2: Seq<B>,
    c2: Seq<B>,
    start: int,
)
    requires
        same_matches(q1, c1, q2, c2),
        q1.len() > 0,
        0 <= start < c1.len(),
        c1[start] == q1[0],
    ensures
        greedy_positions(q1, c1, start) == greedy_positions(q2, c2, start),
    decreases q1.len(),
{
    if q1.len() > 1 {
        let r1 = q1.drop_last();
        let r2 = q2.drop_last();
        assert(same_matches(r1, c1, r2, c2)) by {
            assert forall|i: int, j: int|
                #![trigger r1[i], c1[j]]
                #![trigger r2[i], c2[j]]
                0 <= i < r1.len() && 0 <= j < c1.len() implies ((r1[i] == c1[j]) <==> (r2[i]
                == c2[j])) by {
                assert(r1[i] == q1[i] && r2[i] == q2[i]);
                assert((q1[i] == c1[j]) <==> (q2[i] == c2[j]));
            }
        }
        lemma_same_greedy(r1, c1, r2, c2, start);
        lemma_greedy_positions(r1, c1, start);
        match greedy_positions(r1, c1, start) {
            Some(before) => {
                lemma_same_next(q1, c1, q2, c2, q1.len() - 1, before.last() + 1);
            },
            None => {},
        }
    }
}

proof fn lemma_same_best<A, B>(
    q1: Seq<A>,
    c1: Seq<A>,
    q2: Seq<B>,
    c2: Seq<B>,
    scoring: ScoringConfig,
    n: int,
)
    requires
        same_matches(q1, c1, q2, c2),
        q1.len() > 0,
        0 <= n <= c1.len(),
    ensures
        best_start(q1, c1, scoring, n) == best_start(q2, c2, scoring, n),
        forall|k: int|
            0 <= k < n ==> total_at(q1, c1, k, scoring) == #[trigger] total_at(q2, c2, k, scoring),
    decreases n,
{
    if n > 0 {
        lemma_same_best(q1, c1, q2, c2, scoring, n - 1);
        assert((q1[0] == c1[n - 1]) <==> (q2[0] == c2[n - 1]));
        if c1[n - 1] == q1[0] {
            lemma_same_greedy(q1, c1, q2, c2, n - 1);
        }
        assert(total_at(q1, c1, n - 1, scoring) == total_at(q2, c2, n - 1, scoring));
        lemma_best_start(q1, c1, scoring, n - 1);
    }
}

proof fn lemma_ascii_byte(c: char)
    requires
        text::is_ascii_char(c),
    ensures
        (c as u8) as int == c as int,
{
}

/// On ASCII texts, scoring the bytes is scoring the characters.
pub proof fn lemma_ascii_bytes_score_alike(
    query: Seq<char>,
    candidate: Seq<char>,
    scoring: ScoringConfig,
)
    requires
        text::all_ascii(query),
        text::all_ascii(candidate),
    ensures
        fuzzy(
            Seq::new(query.len(), |i: int| query[i] as u8),
            Seq::new(candidate.len(), |i: int| candidate[i] as u8),
            scoring,
        ) == fuzzy(query, candidate, scoring),
{
    let q = Seq::new(query.len(), |i: int| query[i] as u8);
    let c = Seq::new(candidate.len(), |i: int| candidate[i] as u8);
    if query.len() > 0 {
        assert(same_matches(q, c, query, candidate)) by {
            assert forall|i: int, j: int|
                #![trigger q[i], c[j]]
                #![trigger query[i], candidate[j]]
                0 <= i < q.len() && 0 <= j < c.len() implies ((q[i] == c[j]) <==> (query[i]
                == candidate[j])) by {
                assert(text::is_ascii_char(query[i]));
                assert(text::is_ascii_char(candidate[j]));
                lemma_ascii_byte(query[i]);
                lemma_ascii_byte(candidate[j]);
            }
        }
        lemma_same_best(q, c, query, candidate, scoring, c.len() as int);
        lemma_best_start(q, c, scoring, c.len() as int);
    }
}

/// The best fuzzy score over the characters of two texts.
pub fn fuzzy_score_unicode(query: &str, candidate: &str, scoring: &ScoringConfig) -> (r: Option<i32>)
    ensures
        r == fuzzy(query@, candidate@, *scoring),
{
    let q = text::chars_of(query);
    let c = text::chars_of(candidate);
    fuzzy_score_of_chars(q.as_slice(), c.as_slice(), scoring)
}

/// The best fuzzy score, over bytes where both texts are ASCII.
pub fn fuzzy_score_numeric(query: &str, candidate: &str, scoring: &ScoringConfig) -> (r: Option<i32>)
    ensures
        r == fuzzy(query@, candidate@, *scoring),
{
    if query.is_ascii() && candidate.is_ascii() {
        proof {
            vstd::utf8::is_ascii_chars_encode_utf8(query@);
            vstd::utf8::is_ascii_chars_encode_utf8(candidate@);
            assert(vstd::utf8::encode_utf8(query@) =~= Seq::new(
                query@.len(),
                |i: int| query@[i] as u8,
            ));
            assert(vstd::utf8::encode_utf8(candidate@) =~= Seq::new(
                candidate@.len(),
                |i: int| candidate@[i] as u8,
            ));
            assert(text::all_ascii(query@));
            assert(text::all_ascii(candidate@));
            lemma_ascii_bytes_score_alike(query@, candidate@, *scoring);
        }
        return fuzzy_score_ascii(query.as_bytes(), candidate.as_bytes(), scoring);
    }
    fuzzy_score_unicode(query, candidate, scoring)
}

/// The best fuzzy score of a query in a candidate.
pub fn fuzzy_score(query: &str, candidate: &str, scoring: &ScoringConfig) -> (r: Option<i32>)
    ensures
        r == fuzzy(query@, candidate@, *scoring),
{
    fuzzy_score_numeric(query, candidate, scoring)
}

// ---------------------------------------------------------------------------
// The parts of a score
// ---------------------------------------------------------------------------

/// The best fuzzy match with the parts of its score. Positions are byte
/// offsets into the candidate.
#[derive(Clone, Debug, PartialEq, Eq)]
pub struct FuzzyScoreParts {
    pub positions: Vec<usize>,
    pub first_character_index: i32,
    pub adjacent_pairs: i32,
    pub query_length: i32,
    pub candidate_length: i32,
    pub length_score: i32,
    pub leftmost_score: i32,
    pub compact_score: i32,
    pub total: i32,
}

/// `parts` describes the greedy match at the given character positions.
pub open spec fn describes_match(
    parts: FuzzyScoreParts,
    candidate: Seq<char>,
    positions: Seq<int>,
    scoring: ScoringConfig,
) -> bool {
    &&& parts.positions@.len() == positions.len()
    &&& forall|k: int|
        0 <= k < positions.len() ==> #[trigger] parts.positions@[k] == text::byte_offset(
            candidate,
            positions[k],
        )
    &&& parts.first_character_index == arith::length_i32(positions[0])
    &&& parts.adjacent_pairs == arith::length_i32(adjacent_pairs(positions) as int)
    &&& parts.query_length == counted_length(positions.len())
    &&& parts.candidate_length == counted_length(candidate.len())
    &&& parts.length_score == length_share(parts.query_length, parts.candidate_length, scoring)
    &&& parts.leftmost_score == leftmost_share(parts.first_character_index, scoring)
    &&& parts.compact_score == compact_share(parts.adjacent_pairs, parts.query_length, scoring)
    &&& parts.total == arith::sat(
        arith::sat(parts.length_score + parts.leftmost_score) + parts.compact_score,
    )
}

/// The greedy match from `start` as positions.
fn greedy_match(query: &[char], candidate: &[char], start: usize) -> (r: Option<Vec<usize>>)
    requires
        query.len() > 0,
        start < candidate.len(),
        candidate@[start as int] == query@[0],
    ensures
        match greedy_positions(query@, candidate@, start as int) {
            Some(positions) => r matches Some(found) && found@.len() == positions.len() && forall|
                k: int,
            |
                0 <= k < positions.len() ==> #[trigger] found@[k] == positions[k],
            None => r is None,
        },
{
    let mut found: Vec<usize> = Vec::new();
    found.push(start);
    let mut next: usize = start + 1;
    let mut k: usize = 1;
    let ghost mut positions: Seq<int> = seq![start as int];
    proof {
        assert(query@.take(1).len() == 1);
    }
    while k < query.len()
        invariant
            1 <= k <= query.len(),
            start < candidate.len(),
            candidate@[start as int] == query@[0],
            greedy_positions(query@.take(k as int), candidate@, start as int) == Some(positions),
            positions.len() == k,
            next == positions.last() + 1,
            next <= candidate.len(),
            found@.len() == k,
            forall|m: int| 0 <= m < k ==> #[trigger] found@[m] == positions[m],
        decreases query.len() - k,
    {
        let wanted = query[k];
        let mut at: usize = next;
        while at < candidate.len() && candidate[at] != wanted
            invariant
                next <= at <= candidate.len(),
                forall|m: int| next <= m < at ==> candidate@[m] != wanted,
            decreases candidate.len() - at,
        {
            at += 1;
        }
        proof {
            let longer = query@.take(k + 1);
            assert(longer.drop_last() =~= query@.take(k as int));
            assert(longer.last() == wanted);
            lemma_next_at(candidate@, wanted, next as int);
            if at == candidate@.len() {
                lemma_greedy_prefix_none(query@, candidate@, start as int, k + 1);
            } else {
                lemma_next_at_is(candidate@, wanted, next as int, at as int);
            }
        }
        if at >= candidate.len() {
            return None;
        }
        found.push(at);
        proof {
            positions = positions.push(at as int);
        }
        next = at + 1;
        k += 1;
    }
    proof {
        assert(query@.take(k as int) =~= query@);
    }
    Some(found)
}

/// The number of neighbouring positions that are one apart.
fn count_adjacent(positions: &[usize]) -> (r: usize)
    ensures
        r == adjacent_pairs(Seq::new(positions@.len(), |k: int| positions@[k] as int)),
        r <= positions.len(),
{
    let ghost all = Seq::new(positions@.len(), |k: int| positions@[k] as int);
    let mut count: usize = 0;
    let mut k: usize = 1;
    if positions.len() <= 1 {
        return 0;
    }
    proof {
        assert(adjacent_pairs(all.take(1)) == 0);
    }
    while k < positions.len()
        invariant
            1 <= k <= positions.len(),
            all == Seq::new(positions@.len(), |k: int| positions@[k] as int),
            count == adjacent_pairs(all.take(k as int)),
            count < k,
        decreases positions.len() - k,
    {
        proof {
            assert(all.take(k + 1).drop_last() =~= all.take(k as int));
            assert(all.take(k + 1).last() == positions@[k as int]);
        }
        if positions[k] > 0 && positions[k] - 1 == positions[k - 1] {
            count += 1;
        }
        k += 1;
    }
    proof {
        assert(all.take(k as int) =~= all);
    }
    count
}

/// The parts of the score of one match, from its character positions.
fn fuzzy_positions_score_parts(
    candidate: &str,
    found: &[usize],
    offsets: &[usize],
    candidate_count: usize,
    scoring: &ScoringConfig,
) -> (r: FuzzyScoreParts)
    requires
        found.len() > 0,
        offsets@.len() == candidate@.len(),
        candidate_count == candidate@.len(),
        forall|i: int|
            0 <= i < candidate@.len() ==> #[trigger] offsets@[i] == text::byte_offset(candidate@, i),
        forall|k: int| 0 <= k < found@.len() ==> #[trigger] found@[k] < candidate@.len(),
    ensures
        describes_match(r, candidate@, Seq::new(found@.len(), |k: int| found@[k] as int), *scoring),
{
    let candidate_length: i32 = arith::length_as_i32(
        if candidate_count > 1 {
            candidate_count
        } else {
            1
        },
    );
    let query_length: i32 = arith::length_as_i32(found.len());
    let first_character_index: i32 = arith::length_as_i32(found[0]);
    let adjacent: i32 = arith::length_as_i32(count_adjacent(found));
    let (length, leftmost, compact): (i32, i32, i32) = fuzzy_shares(
        first_character_index,
        adjacent,
        query_length,
        candidate_length,
        scoring,
    );
    let mut positions: Vec<usize> = Vec::new();
    let mut k: usize = 0;
    while k < found.len()
        invariant
            k <= found.len(),
            offsets@.len() == candidate@.len(),
            forall|i: int|
                0 <= i < candidate@.len() ==> #[trigger] offsets@[i] == text::byte_offset(
                    candidate@,
                    i,
                ),
            forall|m: int| 0 <= m < found@.len() ==> #[trigger] found@[m] < candidate@.len(),
            positions@.len() == k,
            forall|m: int|
                0 <= m < k ==> #[trigger] positions@[m] == text::byte_offset(
                    candidate@,
                    found@[m] as int,
                ),
        decreases found.len() - k,
    {
        positions.push(offsets[found[k]]);
        k += 1;
    }
    FuzzyScoreParts {
        positions,
        first_character_index,
        adjacent_pairs: adjacent,
        query_length,
        candidate_length,
        length_score: length,
        leftmost_score: leftmost,
        compact_score: compact,
        total: arith::sat_add(arith::sat_add(length, leftmost), compact),
    }
}

/// The best fuzzy match with the parts of its score; its total is the fuzzy
/// score.
pub fn fuzzy_score_parts(query: &str, candidate: &str, scoring: &ScoringConfig) -> (r: Option<
    FuzzyScoreParts,
>)
    ensures
        match fuzzy(query@, candidate@, *scoring) {
            None => r is None,
            Some(total) => {
                &&& r matches Some(parts)
                &&& parts.total == total
                &&& describes_match(
                    parts,
                    candidate@,
                    greedy_positions(
                        query@,
                        candidate@,
                        best_start(query@, candidate@, *scoring, candidate@.len() as int)->0,
                    )->0,
                    *scoring,
                )
            },
        },
{
    let q = text::chars_of(query);
    let c = text::chars_of(candidate);
    if q.len() == 0 {
        return None;
    }
    let offsets = text::byte_offsets(candidate);
    let mut best: Option<FuzzyScoreParts> = None;
    let mut start: usize = 0;
    while start < c.len()
        invariant
            start <= c.len(),
            q.len() > 0,
            q@ == query@,
            c@ == candidate@,
            offsets@.len() == candidate@.len(),
            forall|i: int|
                0 <= i < candidate@.len() ==> #[trigger] offsets@[i] == text::byte_offset(
                    candidate@,
                    i,
                ),
            match best_start(query@, candidate@, *scoring, start as int) {
                None => best is None,
                Some(b) => {
                    &&& best matches Some(parts)
                    &&& total_at(query@, candidate@, b, *scoring) == Some(parts.total)
                    &&& describes_match(
                        parts,
                        candidate@,
                        greedy_positions(query@, candidate@, b)->0,
                        *scoring,
                    )
                },
            },
        decreases c.len() - start,
    {
        proof {
            lemma_best_start(query@, candidate@, *scoring, start as int);
        }
        if c[start] == q[0] {
            proof {
                lemma_greedy_positions(query@, candidate@, start as int);
            }
            match greedy_match(q.as_slice(), c.as_slice(), start) {
                Some(found) => {
                    let ghost positions = greedy_positions(query@, candidate@, start as int)->0;
                    proof {
                        assert forall|k: int| 0 <= k < found@.len() implies #[trigger] found@[k]
                            < candidate@.len() by {
                            assert(found@[k] == positions[k]);
                        }
                        assert(Seq::new(found@.len(), |k: int| found@[k] as int) =~= positions);
                    }
                    let parts = fuzzy_positions_score_parts(
                        candidate,
                        found.as_slice(),
                        offsets.as_slice(),
                        c.len(),
                        scoring,
                    );
                    let better = match &best {
                        Some(current) => parts.total > current.total,
                        None => true,
                    };
                    if better {
                        best = Some(parts);
                    }
                },
                None => {},
            }
        }
        start += 1;
    }
    best
}

// ---------------------------------------------------------------------------
// Longer queries
// ---------------------------------------------------------------------------

proof fn lemma_greedy_of_prefix<T>(query: Seq<T>, candidate: Seq<T>, start: int, n: int)
    requires
        1 <= n <= query.len(),
        greedy_positions(query, candidate, start) is Some,
    ensures
        greedy_positions(query.take(n), candidate, start) is Some,
    decreases query.len(),
{
    if n == query.len() {
        assert(query.take(n) =~= query);
    } else {
        assert(query.drop_last().take(n) =~= query.take(n));
        lemma_greedy_of_prefix(query.drop_last(), candidate, start, n);
    }
}

proof fn lemma_some_start<T>(query: Seq<T>, candidate: Seq<T>, scoring: ScoringConfig, n: int)
    ensures
        best_start(query, candidate, scoring, n) matches Some(s) ==> 0 <= s < n && total_at(
            query,
            candidate,
            s,
            scoring,
        ) is Some,
        forall|s: int|
            0 <= s < n && (#[trigger] total_at(query, candidate, s, scoring)) is Some
                ==> best_start(query, candidate, scoring, n) is Some,
    decreases n,
{
    if n > 0 {
        lemma_some_start(query, candidate, scoring, n - 1);
    }
}

/// Where the letters of a query are found in their order, so are those that it begins
/// with.
pub proof fn lemma_prefix_is_found<T>(query: Seq<T>, candidate: Seq<T>, scoring: ScoringConfig, n: int)
    requires
        1 <= n <= query.len(),
        fuzzy(query, candidate, scoring) is Some,
    ensures
        fuzzy(query.take(n), candidate, scoring) is Some,
{
    let len = candidate.len() as int;
    lemma_some_start(query, candidate, scoring, len);
    let start = best_start(query, candidate, scoring, len)->0;
    lemma_greedy_of_prefix(query, candidate, start, n);
    assert(query.take(n)[0] == query[0]);
    assert(total_at(query.take(n), candidate, start, scoring) is Some);
    lemma_some_start(query.take(n), candidate, scoring, len);
}


proof fn lemma_greedy_of_infix<T>(query: Seq<T>, candidate: Seq<T>, start: int, i: int, j: int)
    requires
        0 <= i < j <= query.len(),
        0 <= start < candidate.len(),
        candidate[start] == query[0],
        greedy_positions(query, candidate, start) is Some,
    ensures
        ({
            let all = greedy_positions(query, candidate, start)->0;
            greedy_positions(query.subrange(i, j), candidate, all[i]) == Some(all.subrange(i, j))
        }),
    decreases query.len(),
{
    let all = greedy_positions(query, candidate, start)->0;
    let part = query.subrange(i, j);
    lemma_greedy_positions(query, candidate, start);
    if j == i + 1 {
        assert(all.subrange(i, j) =~= seq![all[i]]);
    } else {
        let shorter = query.drop_last();
        let before = greedy_positions(shorter, candidate, start)->0;
        assert(greedy_positions(shorter, candidate, start) is Some);
        lemma_greedy_positions(shorter, candidate, start);
        assert(before =~= all.drop_last());
        if j < query.len() {
            lemma_greedy_of_infix(shorter, candidate, start, i, j);
            assert(shorter.subrange(i, j) =~= part);
            assert(before.subrange(i, j) =~= all.subrange(i, j));
        } else {
            lemma_greedy_of_infix(shorter, candidate, start, i, j - 1);
            assert(shorter.subrange(i, j - 1) =~= part.drop_last());
            assert(part.last() == query.last());
            let front = before.subrange(i, j - 1);
            assert(front.last() == before.last());
            assert(front.push(all.last()) =~= all.subrange(i, j));
        }
    }
}

/// Where the letters of a query are found in their order, so are those of any part of it.
pub proof fn lemma_infix_is_found<T>(
    query: Seq<T>,
    candidate: Seq<T>,
    scoring: ScoringConfig,
    i: int,
    j: int,
)
    requires
        0 <= i < j <= query.len(),
        fuzzy(query, candidate, scoring) is Some,
    ensures
        fuzzy(query.subrange(i, j), candidate, scoring) is Some,
{
    let len = candidate.len() as int;
    let part = query.subrange(i, j);
    lemma_some_start(query, candidate, scoring, len);
    let start = best_start(query, candidate, scoring, len)->0;
    lemma_greedy_positions(query, candidate, start);
    lemma_greedy_of_infix(query, candidate, start, i, j);
    let at = (greedy_positions(query, candidate, start)->0)[i];
    assert(candidate[at] == query[i]);
    assert(part[0] == query[i]);
    assert(total_at(part, candidate, at, scoring) is Some);
    lemma_some_start(part, candidate, scoring, len);
}

// ---------------------------------------------------------------------------
// What is found, and what it is worth
// ---------------------------------------------------------------------------

proof fn lemma_greedy_is_early<T>(query: Seq<T>, candidate: Seq<T>, positions: Seq<int>)
    requires
        query.len() > 0,
        positions.len() == query.len(),
        places::rising(positions, candidate.len() as int),
        forall|k: int| 0 <= k < query.len() ==> candidate[#[trigger] positions[k]] == query[k],
    ensures
        greedy_positions(query, candidate, positions[0]) matches Some(p) && p.last()
            <= positions.last(),
    decreases query.len(),
{
    if query.len() > 1 {
        let front = query.drop_last();
        let before = positions.drop_last();
        assert(forall|k: int| 0 <= k < before.len() ==> before[k] == positions[k]);
        assert forall|k: int| 0 <= k < front.len() implies candidate[#[trigger] before[k]]
            == front[k] by {
            assert(candidate[positions[k]] == query[k]);
        }
        assert(places::rising(before, candidate.len() as int)) by {
            assert forall|i: int| 0 <= i < before.len() implies 0 <= #[trigger] before[i]
                < candidate.len() by {
                assert(0 <= positions[i] < candidate.len());
            }
            assert forall|i: int, j: int|
                #![trigger before[i], before[j]]
                0 <= i < j < before.len() implies before[i] < before[j] by {
                assert(positions[i] < positions[j]);
            }
        }
        lemma_greedy_is_early(front, candidate, before);
        let p = greedy_positions(front, candidate, positions[0])->0;
        let n = positions.len() - 1;
        assert(positions[n - 1] < positions[n]);
        assert(before.last() == positions[n - 1]);
        assert(candidate[positions[n]] == query[n]);
        assert(candidate[positions[0]] == query[0]);
        assert(front[0] == query[0]);
        lemma_greedy_positions(front, candidate, positions[0]);
        lemma_next_at(candidate, query.last(), p.last() + 1);
    }
}

/// A query is found in a candidate where its letters stand there in their order, and only
/// there.
pub proof fn lemma_found_where_letters_stand_in_order<T>(
    query: Seq<T>,
    candidate: Seq<T>,
    scoring: ScoringConfig,
)
    ensures
        fuzzy(query, candidate, scoring) is Some <==> query.len() > 0 && exists|
            positions: Seq<int>,
        |
            positions.len() == query.len() && #[trigger] places::rising(
                positions,
                candidate.len() as int,
            ) && forall|k: int|
                0 <= k < query.len() ==> candidate[#[trigger] positions[k]] == query[k],
{
    let n = candidate.len() as int;
    lemma_best_start(query, candidate, scoring, n);
    if query.len() > 0 {
        if fuzzy(query, candidate, scoring) is Some {
            let start = best_start(query, candidate, scoring, n)->0;
            lemma_greedy_positions(query, candidate, start);
            let p = greedy_positions(query, candidate, start)->0;
            assert(places::rising(p, n));
        }
        if exists|positions: Seq<int>|
            positions.len() == query.len() && #[trigger] places::rising(positions, n) && forall|
                k: int,
            |
                0 <= k < query.len() ==> candidate[#[trigger] positions[k]] == query[k] {
            let positions = choose|positions: Seq<int>|
                positions.len() == query.len() && #[trigger] places::rising(positions, n)
                    && forall|k: int|
                    0 <= k < query.len() ==> candidate[#[trigger] positions[k]] == query[k];
            lemma_greedy_is_early(query, candidate, positions);
            assert(candidate[positions[0]] == query[0]);
            assert(total_at(query, candidate, positions[0], scoring) is Some);
        }
    }
}

/// No way to find a query from one of its places on is worth more than the whole is, and one
/// of them is worth as much.
pub proof fn lemma_worth_of_the_best_place<T>(
    query: Seq<T>,
    candidate: Seq<T>,
    scoring: ScoringConfig,
)
    ensures
        fuzzy(query, candidate, scoring) matches Some(worth) ==> {
            &&& forall|k: int|
                0 <= k < candidate.len() ==> (#[trigger] total_at(query, candidate, k, scoring) matches Some(
                    t,
                ) ==> t <= worth)
            &&& exists|k: int|
                0 <= k < candidate.len() && #[trigger] total_at(query, candidate, k, scoring)
                    == Some(worth)
        },
{
    lemma_best_start(query, candidate, scoring, candidate.len() as int);
}

/// What a match is worth: the weight of lengths by the share of the candidate that the query
/// makes up, what is left of the bonus for the left edge, and the share of neighbours among
/// the letters by the bonus for them; wherever no part is extreme.
pub proof fn lemma_worth_of_a_match(
    first: i32,
    adjacent: i32,
    query_length: i32,
    candidate_length: i32,
    scoring: ScoringConfig,
)
    requires
        0 <= adjacent < query_length <= 10_000,
        0 <= first <= 10_000,
        0 < candidate_length,
        0 <= scoring.length_score_weight <= 10_000,
        0 <= scoring.leftmost_match_bonus <= 10_000,
        0 <= scoring.leftmost_distance_penalty <= 10_000,
        0 <= scoring.compact_match_bonus <= 10_000,
    ensures
        fuzzy_sum(first, adjacent, query_length, candidate_length, scoring) == (query_length
            * scoring.length_score_weight) / (candidate_length as int) + (if first
            * scoring.leftmost_distance_penalty < scoring.leftmost_match_bonus {
            scoring.leftmost_match_bonus - first * scoring.leftmost_distance_penalty
        } else {
            0
        }) + (if query_length == 1 {
            scoring.compact_match_bonus as int
        } else {
            (adjacent * scoring.compact_match_bonus) / (query_length - 1)
        }),
{
    let a = query_length * scoring.length_score_weight;
    let b = first * scoring.leftmost_distance_penalty;
    let c = adjacent * scoring.compact_match_bonus;
    let n = candidate_length as int;
    assert(0 <= a <= 100_000_000) by (nonlinear_arith)
        requires
            a == query_length * scoring.length_score_weight,
            0 <= query_length <= 10_000,
            0 <= scoring.length_score_weight <= 10_000,
    ;
    assert(0 <= b <= 100_000_000) by (nonlinear_arith)
        requires
            b == first * scoring.leftmost_distance_penalty,
            0 <= first <= 10_000,
            0 <= scoring.leftmost_distance_penalty <= 10_000,
    ;
    assert(0 <= c <= 100_000_000) by (nonlinear_arith)
        requires
            c == adjacent * scoring.compact_match_bonus,
            0 <= adjacent <= 10_000,
            0 <= scoring.compact_match_bonus <= 10_000,
    ;
    assert(0 <= a / n <= a) by (nonlinear_arith)
        requires
            0 <= a,
            n > 0,
    ;
    if query_length > 1 {
        let m = query_length - 1;
        assert(0 <= c / m <= c) by (nonlinear_arith)
            requires
                0 <= c,
                m > 0,
        ;
    }
}

/// A match further to the left is never worth less, nor is one with more neighbours, nor one
/// in a shorter candidate.
pub proof fn lemma_better_matches_are_worth_more(
    first: i32,
    later: i32,
    fewer: i32,
    more: i32,
    query_length: i32,
    shorter: i32,
    longer: i32,
    scoring: ScoringConfig,
)
    requires
        0 <= first <= later <= 10_000,
        0 <= fewer <= more < query_length <= 10_000,
        0 < shorter <= longer,
        0 <= scoring.length_score_weight <= 10_000,
        0 <= scoring.leftmost_match_bonus <= 10_000,
        0 <= scoring.leftmost_distance_penalty <= 10_000,
        0 <= scoring.compact_match_bonus <= 10_000,
    ensures
        fuzzy_sum(later, fewer, query_length, longer, scoring) <= fuzzy_sum(
            first,
            more,
            query_length,
            shorter,
            scoring,
        ),
{
    lemma_worth_of_a_match(later, fewer, query_length, longer, scoring);
    lemma_worth_of_a_match(first, more, query_length, shorter, scoring);
    let a = query_length * scoring.length_score_weight;
    assert(a / (longer as int) <= a / (shorter as int)) by (nonlinear_arith)
        requires
            a == query_length * scoring.length_score_weight,
            query_length >= 0,
            scoring.length_score_weight >= 0,
            0 < shorter <= longer,
    ;
    assert(first * scoring.leftmost_distance_penalty <= later * scoring.leftmost_distance_penalty)
        by (nonlinear_arith)
        requires
            first <= later,
            scoring.leftmost_distance_penalty >= 0,
    ;
    if query_length > 1 {
        let x = fewer * scoring.compact_match_bonus;
        let y = more * scoring.compact_match_bonus;
        let m = query_length - 1;
        assert(x <= y) by (nonlinear_arith)
            requires
                x == fewer * scoring.compact_match_bonus,
                y == more * scoring.compact_match_bonus,
                fewer <= more,
                scoring.compact_match_bonus >= 0,
        ;
        assert(x / m <= y / m) by (nonlinear_arith)
            requires
                x <= y,
                m > 0,
        ;
    }
}

/// Neighbours are pairs of letters one behind the other: each place whose next one follows at
/// once counts once.
pub proof fn lemma_neighbours_are_counted(positions: Seq<int>)
    ensures
        ({
            let wanted = |k: int| positions[k + 1] == positions[k] + 1;
            exists|pairs: Seq<int>| #[trigger]
                places::picks_all(pairs, positions.len() - 1, wanted) && pairs.len()
                    == adjacent_pairs(positions)
        }) || positions.len() == 0,
        positions.len() == 0 ==> adjacent_pairs(positions) == 0,
    decreases positions.len(),
{
    let wanted = |k: int| positions[k + 1] == positions[k] + 1;
    if positions.len() == 1 {
        assert(places::picks_all(Seq::<int>::empty(), positions.len() - 1, wanted));
    } else if positions.len() > 1 {
        let before = positions.drop_last();
        lemma_neighbours_are_counted(before);
        let old_wanted = |k: int| before[k + 1] == before[k] + 1;
        let n = positions.len() - 2;
        let pairs = choose|pairs: Seq<int>| #[trigger]
            places::picks_all(pairs, before.len() - 1, old_wanted) && pairs.len() == adjacent_pairs(
                before,
            );
        assert(places::picks_all(pairs, n, wanted)) by {
            assert forall|i: int| 0 <= i < pairs.len() implies wanted(#[trigger] pairs[i]) by {
                assert(old_wanted(pairs[i]));
            }
            assert forall|p: int| 0 <= p < n && #[trigger] wanted(p) implies pairs.contains(p) by {
                assert(old_wanted(p));
            }
        }
        places::lemma_pick_one_more(pairs, n, wanted);
        if wanted(n) {
            assert(places::picks_all(pairs.push(n), positions.len() - 1, wanted));
        } else {
            assert(places::picks_all(pairs, positions.len() - 1, wanted));
        }
    }
}

/// Each letter of a query is taken where it comes first behind the one before.
pub proof fn lemma_letters_are_taken_early<T>(query: Seq<T>, candidate: Seq<T>, start: int)
    requires
        query.len() > 0,
        0 <= start < candidate.len(),
        candidate[start] == query[0],
    ensures
        greedy_positions(query, candidate, start) matches Some(p) ==> p.len() == query.len() && p[0]
            == start && forall|k: int, j: int|
            #![trigger p[k], candidate[j]]
            0 < k < p.len() && p[k - 1] < j < p[k] ==> candidate[j] != query[k],
    decreases query.len(),
{
    if query.len() > 1 {
        let front = query.drop_last();
        lemma_letters_are_taken_early(front, candidate, start);
        lemma_greedy_positions(front, candidate, start);
        if let Some(before) = greedy_positions(front, candidate, start) {
            lemma_next_at(candidate, query.last(), before.last() + 1);
            if let Some(p) = greedy_positions(query, candidate, start) {
                assert forall|k: int, j: int|
                    #![trigger p[k], candidate[j]]
                    0 < k < p.len() && p[k - 1] < j < p[k] implies candidate[j] != query[k] by {
                    if k < before.len() {
                        assert(p[k] == before[k] && p[k - 1] == before[k - 1]);
                        assert(front[k] == query[k]);
                    } else {
                        assert(p[k - 1] == before.last());
                    }
                }
            }
        }
    }
}

/// What a match from a place is worth goes by that place, by the neighbours among its letters,
/// and by the lengths of the query and of the name.
pub proof fn lemma_what_a_match_is_worth<T>(
    query: Seq<T>,
    candidate: Seq<T>,
    start: int,
    scoring: ScoringConfig,
)
    requires
        0 < query.len() <= i32::MAX,
        0 <= start < candidate.len() <= i32::MAX,
    ensures
        candidate[start] != query[0] ==> total_at(query, candidate, start, scoring) is None,
        candidate[start] == query[0] ==> (match greedy_positions(query, candidate, start) {
            None => total_at(query, candidate, start, scoring) is None,
            Some(positions) => adjacent_pairs(positions) < query.len() && total_at(
                query,
                candidate,
                start,
                scoring,
            ) == Some(
                fuzzy_sum(
                    start as i32,
                    adjacent_pairs(positions) as i32,
                    query.len() as i32,
                    candidate.len() as i32,
                    scoring,
                ),
            ),
        }),
{
    if candidate[start] == query[0] {
        lemma_greedy_positions(query, candidate, start);
    }
}

} // verus!
