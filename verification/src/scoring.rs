//! Scores of items: how well a query fits the text of an item, and what its
//! place, its kind and its age add.

use crate::arith;
use crate::fuzzy;
use crate::places;
use crate::text;
use crate::types::{LaunchItem, PatternRule, ScoringConfig, SearchQuerySpec};
use crate::wildcard;
use crate::winpath;
use vstd::prelude::*;

verus! {

// ---------------------------------------------------------------------------
// Words of a candidate
// ---------------------------------------------------------------------------

/// A word begins at `i`: an alphanumeric character with none before it.
pub open spec fn word_start(candidate: Seq<char>, i: int) -> bool {
    &&& 0 <= i < candidate.len()
    &&& text::unicode_alphanumeric(candidate[i])
    &&& i == 0 || !text::unicode_alphanumeric(candidate[i - 1])
}

/// The query stands at the beginning of a word.
pub open spec fn at_word_boundary(candidate: Seq<char>, query: Seq<char>) -> bool {
    exists|i: int| #[trigger] word_start(candidate, i) && text::occurs_at(candidate, query, i)
}

/// The query stands at the beginning of a word and ends where no further
/// alphanumeric character follows.
pub open spec fn is_exact_word(candidate: Seq<char>, query: Seq<char>) -> bool {
    exists|i: int|
        #[trigger] word_start(candidate, i) && text::occurs_at(candidate, query, i) && (i
            + query.len() == candidate.len() || !text::unicode_alphanumeric(
            candidate[i + query.len()],
        ))
}

/// The first characters of the words among the first `n` characters.
pub open spec fn initials(candidate: Seq<char>, n: int) -> Seq<char>
    decreases n,
{
    if n <= 0 {
        Seq::empty()
    } else if word_start(candidate, n - 1) {
        initials(candidate, n - 1).push(candidate[n - 1])
    } else {
        initials(candidate, n - 1)
    }
}

/// The query is a beginning of the words' initials.
pub open spec fn is_acronym(candidate: Seq<char>, query: Seq<char>) -> bool {
    text::has_prefix(initials(candidate, candidate.len() as int), query)
}

fn starts_word(candidate: &[char], i: usize) -> (r: bool)
    requires
        i < candidate.len(),
    ensures
        r == word_start(candidate@, i as int),
{
    text::is_alphanumeric(candidate[i]) && (i == 0 || !text::is_alphanumeric(candidate[i - 1]))
}

fn word_boundary_in(candidate: &[char], query: &[char]) -> (r: bool)
    ensures
        r == at_word_boundary(candidate@, query@),
{
    let mut i: usize = 0;
    while i < candidate.len()
        invariant
            i <= candidate.len(),
            forall|k: int|
                0 <= k < i ==> !(#[trigger] word_start(candidate@, k) && text::occurs_at(
                    candidate@,
                    query@,
                    k,
                )),
        decreases candidate.len() - i,
    {
        if starts_word(candidate, i) && text::stands_at(candidate, query, i) {
            return true;
        }
        i += 1;
    }
    false
}

fn exact_word_in(candidate: &[char], query: &[char]) -> (r: bool)
    ensures
        r == is_exact_word(candidate@, query@),
{
    let mut i: usize = 0;
    while i < candidate.len()
        invariant
            i <= candidate.len(),
            forall|k: int|
                0 <= k < i ==> !(#[trigger] word_start(candidate@, k) && text::occurs_at(
                    candidate@,
                    query@,
                    k,
                ) && (k + query@.len() == candidate@.len() || !text::unicode_alphanumeric(
                    candidate@[k + query@.len()],
                ))),
        decreases candidate.len() - i,
    {
        if starts_word(candidate, i) && text::stands_at(candidate, query, i) {
            let end: usize = i + query.len();
            if end == candidate.len() || !text::is_alphanumeric(candidate[end]) {
                return true;
            }
        }
        i += 1;
    }
    false
}

fn initials_of(candidate: &[char]) -> (r: Vec<char>)
    ensures
        r@ == initials(candidate@, candidate@.len() as int),
{
    let mut out: Vec<char> = Vec::new();
    let mut i: usize = 0;
    while i < candidate.len()
        invariant
            i <= candidate.len(),
            out@ == initials(candidate@, i as int),
        decreases candidate.len() - i,
    {
        if starts_word(candidate, i) {
            out.push(candidate[i]);
        }
        i += 1;
    }
    out
}

/// Whether the query stands at the beginning of a word.
pub fn word_boundary_match(candidate: &str, query: &str) -> (r: bool)
    ensures
        r == at_word_boundary(candidate@, query@),
{
    let c = text::chars_of(candidate);
    let q = text::chars_of(query);
    word_boundary_in(c.as_slice(), q.as_slice())
}

/// Whether the query is a whole word, or the beginning of the candidate's
/// words up to a break.
pub fn exact_word_match(candidate: &str, query: &str) -> (r: bool)
    ensures
        r == is_exact_word(candidate@, query@),
{
    let c = text::chars_of(candidate);
    let q = text::chars_of(query);
    exact_word_in(c.as_slice(), q.as_slice())
}

/// Whether the query begins the candidate's initials.
pub fn acronym_starts_with(candidate: &str, query: &str) -> (r: bool)
    ensures
        r == is_acronym(candidate@, query@),
{
    let c = text::chars_of(candidate);
    let q = text::chars_of(query);
    let found = initials_of(c.as_slice());
    text::begins_with(found.as_slice(), q.as_slice())
}

// ---------------------------------------------------------------------------
// The text score
// ---------------------------------------------------------------------------

/// `score` with `bonus` added where a rule applies.
pub open spec fn with_bonus(score: i32, applies: bool, bonus: i32) -> i32 {
    if applies {
        arith::sat(score + bonus)
    } else {
        score
    }
}

/// A fuzzy score with the bonuses of the text rules.
pub open spec fn bonus_score(base: i32, query: Seq<char>, candidate: Seq<char>, scoring: ScoringConfig) -> i32 {
    let s1 = with_bonus(base, candidate == query, scoring.exact_match_bonus);
    let s2 = with_bonus(s1, is_exact_word(candidate, query), scoring.exact_word_bonus);
    let s3 = with_bonus(s2, text::has_prefix(candidate, query), scoring.prefix_match_bonus);
    let s4 = with_bonus(s3, at_word_boundary(candidate, query), scoring.word_boundary_bonus);
    let s5 = with_bonus(s4, is_acronym(candidate, query), scoring.acronym_match_bonus);
    with_bonus(s5, text::has_infix(candidate, query), scoring.consecutive_match_bonus)
}

/// How well a query fits a candidate: one point for an empty query, nothing
/// where the letters are not found or the sum is not positive.
pub open spec fn text_score(query: Seq<char>, candidate: Seq<char>, scoring: ScoringConfig) -> Option<i32> {
    let q = text::trimmed(query);
    if q.len() == 0 {
        Some(1)
    } else if candidate.len() == 0 {
        None
    } else {
        match fuzzy::fuzzy(q, candidate, scoring) {
            None => None,
            Some(base) => {
                let score = bonus_score(base, q, candidate, scoring);
                if score > 0 {
                    Some(score)
                } else {
                    None
                }
            },
        }
    }
}

fn add_bonus(score: i32, applies: bool, bonus: i32) -> (r: i32)
    ensures
        r == with_bonus(score, applies, bonus),
{
    if applies {
        arith::sat_add(score, bonus)
    } else {
        score
    }
}

/// How well a query fits a candidate.
pub fn score_text_numeric_with_config(
    query: &str,
    candidate: &str,
    scoring: &ScoringConfig,
) -> (r: Option<i32>)
    ensures
        r == text_score(query@, candidate@, *scoring),
{
    let trimmed_query = text::trim_text(query);
    let q = text::chars_of(trimmed_query.as_str());
    if q.len() == 0 {
        return Some(1);
    }
    let c = text::chars_of(candidate);
    if c.len() == 0 {
        return None;
    }
    let base: i32 = match fuzzy::fuzzy_score_numeric(trimmed_query.as_str(), candidate, scoring) {
        Some(found) => found,
        None => {
            return None;
        },
    };
    let initials = initials_of(c.as_slice());
    let s1: i32 = add_bonus(
        base,
        text::same_chars(c.as_slice(), q.as_slice()),
        scoring.exact_match_bonus,
    );
    let s2: i32 = add_bonus(s1, exact_word_in(c.as_slice(), q.as_slice()), scoring.exact_word_bonus);
    let s3: i32 = add_bonus(
        s2,
        text::begins_with(c.as_slice(), q.as_slice()),
        scoring.prefix_match_bonus,
    );
    let s4: i32 = add_bonus(
        s3,
        word_boundary_in(c.as_slice(), q.as_slice()),
        scoring.word_boundary_bonus,
    );
    let s5: i32 = add_bonus(
        s4,
        text::begins_with(initials.as_slice(), q.as_slice()),
        scoring.acronym_match_bonus,
    );
    let score: i32 = add_bonus(
        s5,
        text::contains_chars(c.as_slice(), q.as_slice()),
        scoring.consecutive_match_bonus,
    );
    if score > 0 {
        Some(score)
    } else {
        None
    }
}

/// How well a query fits a candidate; titles score like other texts.
pub fn score_text_with_config(
    query: &str,
    candidate: &str,
    _is_title: bool,
    scoring: &ScoringConfig,
) -> (r: Option<i32>)
    ensures
        r == text_score(query@, candidate@, *scoring),
{
    score_text_numeric_with_config(query, candidate, scoring)
}

// ---------------------------------------------------------------------------
// Tokens over title and parent
// ---------------------------------------------------------------------------

/// The sum over tokens that fit the title.
pub struct TokenSum {
    pub total: i32,
    pub count: nat,
    pub matched_parent: bool,
}

/// A token is found in the searchable parent text.
pub open spec fn in_parent(parent: Seq<char>, token: Seq<char>) -> bool {
    parent.len() > 0 && text::has_infix(parent, token)
}

/// Every token fits the title or stands in the parent; the title scores are
/// added up.
pub open spec fn token_sum(
    tokens: Seq<Seq<char>>,
    candidate: Seq<char>,
    parent: Seq<char>,
    scoring: ScoringConfig,
) -> Option<TokenSum>
    decreases tokens.len(),
{
    if tokens.len() == 0 {
        Some(TokenSum { total: 0, count: 0, matched_parent: false })
    } else {
        match token_sum(tokens.drop_last(), candidate, parent, scoring) {
            None => None,
            Some(before) => {
                let token = tokens.last();
                let found = in_parent(parent, token);
                match text_score(token, candidate, scoring) {
                    Some(score) => Some(
                        TokenSum {
                            total: arith::sat(before.total + score),
                            count: before.count + 1,
                            matched_parent: before.matched_parent || found,
                        },
                    ),
                    None => if found {
                        Some(
                            TokenSum {
                                total: before.total,
                                count: before.count,
                                matched_parent: true,
                            },
                        )
                    } else {
                        None
                    },
                }
            },
        }
    }
}

/// The average title score of two or more tokens, and whether one of them
/// stands in the parent.
pub open spec fn token_match(
    tokens: Seq<Seq<char>>,
    candidate: Seq<char>,
    parent: Seq<char>,
    scoring: ScoringConfig,
) -> Option<(int, bool)> {
    if tokens.len() < 2 {
        None
    } else {
        match token_sum(tokens, candidate, parent, scoring) {
            None => None,
            Some(sum) => {
                let average = arith::div_toward_zero(sum.total as int, sum.count as int);
                if sum.count == 0 || average <= 0 {
                    None
                } else {
                    Some((average, sum.matched_parent))
                }
            },
        }
    }
}

/// A match of several tokens.
#[derive(Clone, Copy, Debug, PartialEq, Eq, Structural)]
pub struct QueryTokenMatch {
    pub text_score: i32,
    pub matched_parent: bool,
}

proof fn lemma_token_sum_none(
    tokens: Seq<Seq<char>>,
    candidate: Seq<char>,
    parent: Seq<char>,
    scoring: ScoringConfig,
    n: int,
)
    requires
        0 <= n <= tokens.len(),
        token_sum(tokens.take(n), candidate, parent, scoring) is None,
    ensures
        token_sum(tokens, candidate, parent, scoring) is None,
    decreases tokens.len(),
{
    if n < tokens.len() {
        assert(tokens.drop_last().take(n) =~= tokens.take(n));
        lemma_token_sum_none(tokens.drop_last(), candidate, parent, scoring, n);
    } else {
        assert(tokens.take(n) =~= tokens);
    }
}

fn average(total: i32, count: u64) -> (r: i32)
    requires
        count > 0,
    ensures
        r == arith::div_toward_zero(total as int, count as int),
{
    let t: i128 = total as i128;
    let c: i128 = count as i128;
    proof {
        assert(total >= 0 ==> 0 <= (total as int) / (count as int) <= total) by (nonlinear_arith)
            requires
                count > 0,
        ;
        assert(total < 0 ==> 0 <= (-(total as int)) / (count as int) <= -(total as int))
            by (nonlinear_arith)
            requires
                count > 0,
        ;
    }
    if t >= 0 {
        (t / c) as i32
    } else {
        (-((-t) / c)) as i32
    }
}

/// Scores two or more tokens over title and parent.
pub fn score_query_tokens_across_fields_with_config(
    tokens: &[String],
    candidate: &str,
    parent: &str,
    scoring: &ScoringConfig,
) -> (r: Option<QueryTokenMatch>)
    ensures
        match token_match(text::texts(tokens@), candidate@, parent@, *scoring) {
            Some((score, matched)) => r matches Some(found) && found.text_score == score
                && found.matched_parent == matched,
            None => r is None,
        },
{
    if tokens.len() < 2 {
        return None;
    }
    let p = text::chars_of(parent);
    let ghost all = text::texts(tokens@);
    let mut total: i32 = 0;
    let mut count: usize = 0;
    let mut matched_parent = false;
    let mut i: usize = 0;
    proof {
        assert(all.take(0) =~= Seq::<Seq<char>>::empty());
    }
    while i < tokens.len()
        invariant
            i <= tokens.len(),
            all == text::texts(tokens@),
            p@ == parent@,
            token_sum(all.take(i as int), candidate@, parent@, *scoring) == Some(
                TokenSum { total, count: count as nat, matched_parent },
            ),
            count <= i,
        decreases tokens.len() - i,
    {
        let title_score = score_text_numeric_with_config(tokens[i].as_str(), candidate, scoring);
        let t = text::chars_of(tokens[i].as_str());
        let parent_matches = p.len() > 0 && text::contains_chars(p.as_slice(), t.as_slice());
        proof {
            assert(all.take(i + 1).drop_last() =~= all.take(i as int));
            assert(all.take(i + 1).last() == tokens@[i as int]@);
        }
        matched_parent = matched_parent || parent_matches;
        match title_score {
            Some(score) => {
                total = arith::sat_add(total, score);
                count += 1;
            },
            None => {
                if !parent_matches {
                    proof {
                        lemma_token_sum_none(all, candidate@, parent@, *scoring, i + 1);
                    }
                    return None;
                }
            },
        }
        i += 1;
    }
    proof {
        assert(all.take(tokens@.len() as int) =~= all);
    }
    if count == 0 {
        return None;
    }
    let score: i32 = average(total, count as u64);
    if score > 0 {
        Some(QueryTokenMatch { text_score: score, matched_parent })
    } else {
        None
    }
}

// ---------------------------------------------------------------------------
// Items
// ---------------------------------------------------------------------------

/// The name of a candidate in the forms that it is scored by.
#[derive(Debug, PartialEq, Eq)]
pub struct PreparedCandidateName {
    pub title: String,
    pub folded_title: String,
    pub folded_stem: String,
}

/// The larger of two optional scores; a missing one is the smallest.
pub open spec fn opt_max(a: Option<i32>, b: Option<int>) -> Option<int> {
    match (a, b) {
        (Some(x), Some(y)) => Some(arith::max_int(x as int, y)),
        (Some(x), None) => Some(x as int),
        (None, Some(y)) => Some(y),
        (None, None) => None,
    }
}

/// The score of a name: the better of the whole query and the average of its
/// tokens, with the exact bonus where the query is the stem of a file.
pub open spec fn name_score(
    query: Seq<char>,
    title: Seq<char>,
    stem: Seq<char>,
    parent: Seq<char>,
    is_dir: bool,
    scoring: ScoringConfig,
) -> Option<i32> {
    let tokens = match token_match(text::words(query), title, parent, scoring) {
        Some((score, _)) => Some(score),
        None => None,
    };
    match opt_max(text_score(query, title, scoring), tokens) {
        None => None,
        Some(best) => {
            let q = text::trimmed(query);
            Some(
                with_bonus(
                    best as i32,
                    !is_dir && stem.len() > 0 && stem == q && title != q,
                    scoring.exact_match_bonus,
                ),
            )
        },
    }
}

/// The bonus for a query that names the parent folder.
pub open spec fn parent_score(
    query: Seq<char>,
    title: Seq<char>,
    parent: Seq<char>,
    scoring: ScoringConfig,
) -> i32 {
    let q = text::trimmed(query);
    let tokens = text::words(query);
    let all_in_parent = tokens.len() >= 2 && forall|i: int|
        0 <= i < tokens.len() ==> text::has_infix(parent, #[trigger] tokens[i]);
    let mixed = match token_match(tokens, title, parent, scoring) {
        Some((_, matched)) => matched,
        None => false,
    };
    if q.len() == 0 || parent.len() == 0 {
        0
    } else if text::has_infix(parent, q) || all_in_parent || mixed {
        scoring.explicit_folder_name_match_adjustment
    } else {
        0
    }
}

/// A text scores like its trimmed form.
pub proof fn lemma_text_score_trimmed(query: Seq<char>, candidate: Seq<char>, scoring: ScoringConfig)
    ensures
        text_score(text::trimmed(query), candidate, scoring) == text_score(query, candidate, scoring),
{
    text::lemma_trimmed_idempotent(query);
}

/// A name scores alike for a query and for the trimmed query.
pub proof fn lemma_name_score_trimmed(
    query: Seq<char>,
    title: Seq<char>,
    stem: Seq<char>,
    parent: Seq<char>,
    is_dir: bool,
    scoring: ScoringConfig,
)
    ensures
        name_score(text::trimmed(query), title, stem, parent, is_dir, scoring) == name_score(
            query,
            title,
            stem,
            parent,
            is_dir,
            scoring,
        ),
{
    text::lemma_trimmed_idempotent(query);
    text::lemma_words_trimmed(query);
}

fn score_name(
    query: &str,
    tokens: &[String],
    title: &str,
    stem: &str,
    parent: &str,
    is_dir: bool,
    scoring: &ScoringConfig,
) -> (r: Option<i32>)
    requires
        text::texts(tokens@) == text::words(query@),
    ensures
        r == name_score(query@, title@, stem@, parent@, is_dir, *scoring),
{
    let whole = score_text_numeric_with_config(query, title, scoring);
    let split = score_query_tokens_across_fields_with_config(tokens, title, parent, scoring);
    let best: i32 = match (whole, split) {
        (Some(x), Some(y)) => arith::max_i32(x, y.text_score),
        (Some(x), None) => x,
        (None, Some(y)) => y.text_score,
        (None, None) => {
            return None;
        },
    };
    let q = text::trim_text(query);
    let stem_exact = !is_dir && !stem.is_empty() && text::same_text(stem, q.as_str())
        && !text::same_text(title, q.as_str());
    Some(add_bonus(best, stem_exact, scoring.exact_match_bonus))
}

/// The text score of an item.
pub fn score_item_text_with_config(query: &str, item: &LaunchItem, scoring: &ScoringConfig) -> (r:
    Option<i32>)
    ensures
        r == name_score(
            query@,
            item.folded_title@,
            item.folded_stem@,
            item.folded_parent@,
            item.is_dir,
            *scoring,
        ),
{
    let tokens = text::split_whitespace(query);
    score_name(
        query,
        tokens.as_slice(),
        item.folded_title.as_str(),
        item.folded_stem.as_str(),
        item.folded_parent.as_str(),
        item.is_dir,
        scoring,
    )
}

/// The bonus of an item whose parent folder the query names.
pub fn score_item_path_with_config(query: &str, item: &LaunchItem, scoring: &ScoringConfig) -> (r:
    i32)
    ensures
        r == parent_score(query@, item.folded_title@, item.folded_parent@, *scoring),
{
    let trimmed_query = text::trim_text(query);
    if trimmed_query.as_str().is_empty() || item.folded_parent.as_str().is_empty() {
        return 0;
    }
    let parent = text::chars_of(item.folded_parent.as_str());
    let q = text::chars_of(trimmed_query.as_str());
    let tokens = text::split_whitespace(query);
    let ghost all = text::words(query@);
    let mut all_in_parent = tokens.len() >= 2;
    let mut i: usize = 0;
    while i < tokens.len()
        invariant
            i <= tokens.len(),
            text::texts(tokens@) == all,
            all == text::words(query@),
            parent@ == item.folded_parent@,
            all_in_parent == (all.len() >= 2 && forall|k: int|
                0 <= k < i ==> text::has_infix(parent@, #[trigger] all[k])),
        decreases tokens.len() - i,
    {
        let t = text::chars_of(tokens[i].as_str());
        proof {
            assert(text::texts(tokens@)[i as int] == tokens@[i as int]@);
        }
        all_in_parent = all_in_parent && text::contains_chars(parent.as_slice(), t.as_slice());
        i += 1;
    }
    let mixed = match score_query_tokens_across_fields_with_config(
        tokens.as_slice(),
        item.folded_title.as_str(),
        item.folded_parent.as_str(),
        scoring,
    ) {
        Some(found) => found.matched_parent,
        None => false,
    };
    if text::contains_chars(parent.as_slice(), q.as_slice()) || all_in_parent || mixed {
        scoring.explicit_folder_name_match_adjustment
    } else {
        0
    }
}

// ---------------------------------------------------------------------------
// Modifier keywords
// ---------------------------------------------------------------------------

/// A keyword with a minus in front rejects one of the query's modifiers.
pub open spec fn keywords_reject(keywords: Seq<Seq<char>>, modifiers: Seq<Seq<char>>) -> bool {
    exists|i: int|
        0 <= i < keywords.len() && (#[trigger] keywords[i]).len() > 0 && keywords[i][0] == '-'
            && modifiers.contains(keywords[i].drop_first())
}

/// A keyword that a query's modifiers satisfy.
pub open spec fn keyword_accepts(keyword: Seq<char>, modifiers: Seq<Seq<char>>) -> bool {
    keyword == "*"@ || (!(keyword.len() > 0 && keyword[0] == '-') && keyword != "[blank]"@
        && modifiers.contains(keyword))
}

/// The keywords select a query with the given modifiers.
pub open spec fn keywords_match(keywords: Seq<Seq<char>>, modifiers: Seq<Seq<char>>) -> bool {
    if keywords.len() == 0 || keywords_reject(keywords, modifiers) {
        false
    } else if modifiers.len() == 0 {
        keywords.contains("[blank]"@)
    } else {
        exists|i: int| 0 <= i < keywords.len() && keyword_accepts(#[trigger] keywords[i], modifiers)
    }
}

/// A rule with the given keywords applies. One without keywords applies where
/// no other rule is selected.
pub open spec fn keywords_apply(
    keywords: Seq<Seq<char>>,
    modifiers: Seq<Seq<char>>,
    any_match: bool,
) -> bool {
    if keywords.len() == 0 {
        modifiers.len() == 0 || !any_match
    } else {
        keywords_match(keywords, modifiers)
    }
}

fn is_negative(keyword: &[char]) -> (r: bool)
    ensures
        r == (keyword@.len() > 0 && keyword@[0] == '-'),
{
    keyword.len() > 0 && keyword[0] == '-'
}

fn any_rejected(keywords: &[String], modifiers: &[String]) -> (r: bool)
    ensures
        r == keywords_reject(text::texts(keywords@), text::texts(modifiers@)),
{
    let ghost k = text::texts(keywords@);
    let ghost m = text::texts(modifiers@);
    let mut i: usize = 0;
    while i < keywords.len()
        invariant
            i <= keywords.len(),
            k == text::texts(keywords@),
            m == text::texts(modifiers@),
            forall|j: int|
                0 <= j < i ==> !((#[trigger] k[j]).len() > 0 && k[j][0] == '-' && m.contains(
                    k[j].drop_first(),
                )),
        decreases keywords.len() - i,
    {
        let chars = text::chars_of(keywords[i].as_str());
        proof {
            assert(k[i as int] == chars@);
        }
        if is_negative(chars.as_slice()) {
            let rest = text::string_of(
                vstd::slice::slice_subrange(chars.as_slice(), 1, chars.len()),
            );
            proof {
                assert(rest@ =~= chars@.drop_first());
            }
            if text::contains_text(modifiers, rest.as_str()) {
                return true;
            }
        }
        i += 1;
    }
    false
}

/// Whether keywords select a query with the given modifiers.
pub fn modifier_keywords_match(keywords: &[String], query_modifiers: &[String]) -> (r: bool)
    ensures
        r == keywords_match(text::texts(keywords@), text::texts(query_modifiers@)),
{
    let ghost k = text::texts(keywords@);
    let ghost m = text::texts(query_modifiers@);
    if keywords.len() == 0 || any_rejected(keywords, query_modifiers) {
        return false;
    }
    if query_modifiers.len() == 0 {
        return text::contains_text(keywords, "[blank]");
    }
    let mut i: usize = 0;
    while i < keywords.len()
        invariant
            i <= keywords.len(),
            k == text::texts(keywords@),
            m == text::texts(query_modifiers@),
            k.len() > 0,
            m.len() > 0,
            !keywords_reject(k, m),
            forall|j: int| 0 <= j < i ==> !keyword_accepts(#[trigger] k[j], m),
        decreases keywords.len() - i,
    {
        let keyword = keywords[i].as_str();
        let chars = text::chars_of(keyword);
        proof {
            assert(k[i as int] == chars@);
        }
        if text::same_text(keyword, "*") || (!is_negative(chars.as_slice()) && !text::same_text(
            keyword,
            "[blank]",
        ) && text::contains_text(query_modifiers, keyword)) {
            proof {
                assert(keyword_accepts(k[i as int], m));
            }
            return true;
        }
        i += 1;
    }
    false
}

/// Whether a rule with the given keywords applies.
pub fn modifier_keywords_apply(
    keywords: &[String],
    query_modifiers: &[String],
    any_modifier_match: bool,
) -> (r: bool)
    ensures
        r == keywords_apply(
            text::texts(keywords@),
            text::texts(query_modifiers@),
            any_modifier_match,
        ),
{
    if keywords.len() == 0 {
        query_modifiers.len() == 0 || !any_modifier_match
    } else {
        modifier_keywords_match(keywords, query_modifiers)
    }
}

/// Some rule's keywords select the query.
pub open spec fn any_rule_matches(rules: Seq<PatternRule>, modifiers: Seq<Seq<char>>) -> bool {
    exists|i: int|
        0 <= i < rules.len() && keywords_match(
            text::texts((#[trigger] rules[i]).modifiers@),
            modifiers,
        )
}

/// Whether some rule's keywords select the query.
pub fn any_modifier_keywords_match(rules: &[PatternRule], query_modifiers: &[String]) -> (r: bool)
    ensures
        r == any_rule_matches(rules@, text::texts(query_modifiers@)),
{
    let mut i: usize = 0;
    while i < rules.len()
        invariant
            i <= rules.len(),
            forall|k: int|
                0 <= k < i ==> !keywords_match(
                    text::texts((#[trigger] rules@[k]).modifiers@),
                    text::texts(query_modifiers@),
                ),
        decreases rules.len() - i,
    {
        if modifier_keywords_match(rules[i].modifiers.as_slice(), query_modifiers) {
            return true;
        }
        i += 1;
    }
    false
}

// ---------------------------------------------------------------------------
// Pattern rules
// ---------------------------------------------------------------------------

/// The nearest value of 64 bits.
pub open spec fn sat64(i: int) -> i64 {
    if i > i64::MAX {
        i64::MAX
    } else if i < i64::MIN {
        i64::MIN
    } else {
        i as i64
    }
}

fn sat64_add(a: i64, b: i32) -> (r: i64)
    ensures
        r == sat64(a + b),
{
    let sum: i128 = a as i128 + b as i128;
    if sum > i64::MAX as i128 {
        i64::MAX
    } else if sum < i64::MIN as i128 {
        i64::MIN
    } else {
        sum as i64
    }
}

/// A pattern that names folders is held against the whole path.
pub open spec fn names_folders(pattern: Seq<char>) -> bool {
    pattern.contains('\\') || pattern.contains('/')
}

/// A rule matches an item with the given folded path and file name.
pub open spec fn rule_matches(
    rule: PatternRule,
    folded_path: Seq<char>,
    folded_name: Option<Seq<char>>,
) -> bool {
    let pattern = text::trimmed(rule.pattern@);
    if pattern.len() == 0 {
        false
    } else if names_folders(pattern) {
        wildcard::wildcard(rule.folded_pattern@, folded_path)
    } else {
        match folded_name {
            Some(name) => wildcard::wildcard(rule.folded_pattern@, name),
            None => false,
        }
    }
}

/// The folded file name of a path.
pub open spec fn folded_file_name(path: Seq<char>) -> Option<Seq<char>> {
    match winpath::file_name(path) {
        Some(name) => Some(text::fold(name)),
        None => None,
    }
}

/// The sum of the scores of the rules that apply and match, in 64 bits.
pub open spec fn rules_total(
    rules: Seq<PatternRule>,
    modifiers: Seq<Seq<char>>,
    any_match: bool,
    folded_path: Seq<char>,
    folded_name: Option<Seq<char>>,
) -> i64
    decreases rules.len(),
{
    if rules.len() == 0 {
        0
    } else {
        let before = rules_total(
            rules.drop_last(),
            modifiers,
            any_match,
            folded_path,
            folded_name,
        );
        let rule = rules.last();
        if keywords_apply(text::texts(rule.modifiers@), modifiers, any_match) && rule_matches(
            rule,
            folded_path,
            folded_name,
        ) {
            sat64(before + rule.score)
        } else {
            before
        }
    }
}

/// The pattern score of a path.
pub open spec fn pattern_total(
    rules: Seq<PatternRule>,
    modifiers: Seq<Seq<char>>,
    path: Seq<char>,
) -> i32 {
    arith::sat(
        rules_total(
            rules,
            modifiers,
            any_rule_matches(rules, modifiers),
            text::fold(path),
            folded_file_name(path),
        ) as int,
    )
}

/// The plain sum of the scores of the rules that apply and match.
pub open spec fn rules_sum(
    rules: Seq<PatternRule>,
    modifiers: Seq<Seq<char>>,
    any_match: bool,
    folded_path: Seq<char>,
    folded_name: Option<Seq<char>>,
) -> int
    decreases rules.len(),
{
    if rules.len() == 0 {
        0
    } else {
        let before = rules_sum(
            rules.drop_last(),
            modifiers,
            any_match,
            folded_path,
            folded_name,
        );
        let rule = rules.last();
        if keywords_apply(text::texts(rule.modifiers@), modifiers, any_match) && rule_matches(
            rule,
            folded_path,
            folded_name,
        ) {
            before + rule.score
        } else {
            before
        }
    }
}

/// Up to a list of four thousand million rules the scores are added up without
/// clamping, and only the sum is clamped.
pub proof fn lemma_pattern_total_clamps_once(
    rules: Seq<PatternRule>,
    modifiers: Seq<Seq<char>>,
    any_match: bool,
    folded_path: Seq<char>,
    folded_name: Option<Seq<char>>,
)
    requires
        rules.len() <= 0xffff_ffff,
    ensures
        rules_total(rules, modifiers, any_match, folded_path, folded_name) == rules_sum(
            rules,
            modifiers,
            any_match,
            folded_path,
            folded_name,
        ),
        -0x8000_0000 * rules.len() <= rules_sum(
            rules,
            modifiers,
            any_match,
            folded_path,
            folded_name,
        ) <= 0x8000_0000 * rules.len(),
    decreases rules.len(),
{
    if rules.len() > 0 {
        lemma_pattern_total_clamps_once(
            rules.drop_last(),
            modifiers,
            any_match,
            folded_path,
            folded_name,
        );
    }
}

fn contains_separator(chars: &[char]) -> (r: bool)
    ensures
        r == names_folders(chars@),
{
    text::contains_char(chars, '\\') || text::contains_char(chars, '/')
}

/// Whether a rule matches a path.
pub fn wildcard_rule_matches(rule: &PatternRule, path: &str, folded_path: &str) -> (r: bool)
    ensures
        r == rule_matches(*rule, folded_path@, folded_file_name(path@)),
{
    let pattern = text::trim_text(rule.pattern.as_str());
    let chars = text::chars_of(pattern.as_str());
    if chars.len() == 0 {
        return false;
    }
    if contains_separator(chars.as_slice()) {
        return wildcard::wildcard_match(rule.folded_pattern.as_str(), folded_path);
    }
    match winpath::file_name_of(path) {
        Some(name) => {
            let folded_name = text::fold_text(name.as_str());
            wildcard::wildcard_match(rule.folded_pattern.as_str(), folded_name.as_str())
        },
        None => false,
    }
}

/// The pattern score of a path for a query with the given modifiers.
pub fn pattern_score_with_config_and_modifiers(
    path: &str,
    scoring: &ScoringConfig,
    scoring_modifiers: &[String],
) -> (r: i32)
    ensures
        r == pattern_total(scoring.pattern_rules@, text::texts(scoring_modifiers@), path@),
{
    let folded_path = text::fold_text(path);
    let any_match = any_modifier_keywords_match(scoring.pattern_rules.as_slice(), scoring_modifiers);
    let ghost rules = scoring.pattern_rules@;
    let ghost mods = text::texts(scoring_modifiers@);
    let mut total: i64 = 0;
    let mut i: usize = 0;
    while i < scoring.pattern_rules.len()
        invariant
            i <= scoring.pattern_rules.len(),
            rules == scoring.pattern_rules@,
            mods == text::texts(scoring_modifiers@),
            folded_path@ == text::fold(path@),
            total == rules_total(
                rules.take(i as int),
                mods,
                any_match,
                folded_path@,
                folded_file_name(path@),
            ),
        decreases scoring.pattern_rules.len() - i,
    {
        proof {
            assert(rules.take(i + 1).drop_last() =~= rules.take(i as int));
            assert(rules.take(i + 1).last() == rules[i as int]);
        }
        let rule = &scoring.pattern_rules[i];
        if modifier_keywords_apply(rule.modifiers.as_slice(), scoring_modifiers, any_match)
            && wildcard_rule_matches(rule, path, folded_path.as_str()) {
            total = sat64_add(total, rule.score);
        }
        i += 1;
    }
    proof {
        assert(rules.take(rules.len() as int) =~= rules);
    }
    arith::clamp_i64(total)
}

// ---------------------------------------------------------------------------
// Prepared queries
// ---------------------------------------------------------------------------

/// A rule with its pattern compiled.
#[derive(Debug, PartialEq, Eq)]
pub struct CompiledPatternRule {
    pub matcher: wildcard::CompiledPatternMatcher,
    pub full_path: bool,
    pub score: i32,
}

/// A compiled rule over mathematical values.
pub struct CompiledRuleModel {
    pub form: wildcard::PatternForm,
    pub full_path: bool,
    pub score: i32,
}

impl View for CompiledPatternRule {
    type V = CompiledRuleModel;

    open spec fn view(&self) -> CompiledRuleModel {
        CompiledRuleModel { form: self.matcher@, full_path: self.full_path, score: self.score }
    }
}

/// The views of a list of compiled rules.
pub open spec fn compiled_models(rules: Seq<CompiledPatternRule>) -> Seq<CompiledRuleModel> {
    Seq::new(rules.len(), |i: int| rules[i]@)
}

/// The rules that apply to a query, compiled, without those with a blank
/// pattern.
pub open spec fn compiled_rules(
    rules: Seq<PatternRule>,
    modifiers: Seq<Seq<char>>,
    any_match: bool,
) -> Seq<CompiledRuleModel>
    decreases rules.len(),
{
    if rules.len() == 0 {
        Seq::empty()
    } else {
        let before = compiled_rules(rules.drop_last(), modifiers, any_match);
        let rule = rules.last();
        let pattern = text::trimmed(rule.pattern@);
        if keywords_apply(text::texts(rule.modifiers@), modifiers, any_match) && pattern.len() > 0 {
            before.push(
                CompiledRuleModel {
                    form: wildcard::compiled_form(rule.folded_pattern@),
                    full_path: names_folders(pattern),
                    score: rule.score,
                },
            )
        } else {
            before
        }
    }
}

/// The sum of the scores of compiled rules that accept an item.
pub open spec fn compiled_total(
    rules: Seq<CompiledRuleModel>,
    folded_path: Seq<char>,
    folded_name: Seq<char>,
) -> i64
    decreases rules.len(),
{
    if rules.len() == 0 {
        0
    } else {
        let before = compiled_total(rules.drop_last(), folded_path, folded_name);
        let rule = rules.last();
        let candidate = if rule.full_path {
            folded_path
        } else {
            folded_name
        };
        if wildcard::form_accepts(rule.form, candidate) {
            sat64(before + rule.score)
        } else {
            before
        }
    }
}

/// The sum of the positive scores of compiled rules.
pub open spec fn positive_total(rules: Seq<CompiledRuleModel>) -> i32
    decreases rules.len(),
{
    if rules.len() == 0 {
        0
    } else if rules.last().score > 0 {
        arith::sat(positive_total(rules.drop_last()) + rules.last().score)
    } else {
        positive_total(rules.drop_last())
    }
}

/// A query made ready to score many candidates.
#[derive(Debug, PartialEq, Eq)]
pub struct PreparedQuery {
    pub folded_search_text: String,
    pub tokens: Vec<String>,
    pub compiled_pattern_rules: Vec<CompiledPatternRule>,
    pub needs_folded_path: bool,
    pub positive_pattern_score_ceiling: i32,
}

impl PreparedQuery {
    /// The parts fit together.
    pub open spec fn well_formed(&self) -> bool {
        &&& text::trimmed(self.folded_search_text@) == self.folded_search_text@
        &&& text::texts(self.tokens@) == text::words(self.folded_search_text@)
        &&& self.needs_folded_path == (exists|i: int|
            0 <= i < self.compiled_pattern_rules@.len()
                && (#[trigger] self.compiled_pattern_rules@[i]).full_path)
        &&& self.positive_pattern_score_ceiling == positive_total(
            compiled_models(self.compiled_pattern_rules@),
        )
    }

    /// The prepared form of a search text with scoring modifiers.
    pub open spec fn prepares(
        &self,
        search_text: Seq<char>,
        modifiers: Seq<Seq<char>>,
        scoring: ScoringConfig,
    ) -> bool {
        &&& self.well_formed()
        &&& self.folded_search_text@ == text::trimmed(search_text)
        &&& compiled_models(self.compiled_pattern_rules@) == compiled_rules(
            scoring.pattern_rules@,
            modifiers,
            any_rule_matches(scoring.pattern_rules@, modifiers),
        )
    }

    /// Prepares a query.
    pub fn new(spec: &SearchQuerySpec, scoring: &ScoringConfig) -> (r: PreparedQuery)
        ensures
            r.prepares(spec.folded_search_text@, text::texts(spec.scoring_modifiers@), *scoring),
    {
        let folded_search_text = text::trim_text(spec.folded_search_text.as_str());
        proof {
            text::lemma_trimmed_idempotent(spec.folded_search_text@);
        }
        let tokens = text::split_whitespace(folded_search_text.as_str());
        let any_match = any_modifier_keywords_match(
            scoring.pattern_rules.as_slice(),
            spec.scoring_modifiers.as_slice(),
        );
        let ghost rules = scoring.pattern_rules@;
        let ghost mods = text::texts(spec.scoring_modifiers@);
        let mut compiled: Vec<CompiledPatternRule> = Vec::new();
        let mut needs_folded_path = false;
        let mut ceiling: i32 = 0;
        let mut i: usize = 0;
        proof {
            assert(compiled_models(compiled@) =~= Seq::<CompiledRuleModel>::empty());
        }
        while i < scoring.pattern_rules.len()
            invariant
                i <= scoring.pattern_rules.len(),
                rules == scoring.pattern_rules@,
                mods == text::texts(spec.scoring_modifiers@),
                compiled_models(compiled@) == compiled_rules(rules.take(i as int), mods, any_match),
                needs_folded_path == (exists|k: int|
                    0 <= k < compiled@.len() && (#[trigger] compiled@[k]).full_path),
                ceiling == positive_total(compiled_models(compiled@)),
            decreases scoring.pattern_rules.len() - i,
        {
            proof {
                assert(rules.take(i + 1).drop_last() =~= rules.take(i as int));
                assert(rules.take(i + 1).last() == rules[i as int]);
            }
            let rule = &scoring.pattern_rules[i];
            if modifier_keywords_apply(
                rule.modifiers.as_slice(),
                spec.scoring_modifiers.as_slice(),
                any_match,
            ) {
                let pattern = text::trim_text(rule.pattern.as_str());
                let chars = text::chars_of(pattern.as_str());
                if chars.len() > 0 {
                    let full_path = contains_separator(chars.as_slice());
                    let ghost before = compiled@;
                    let next = CompiledPatternRule {
                        matcher: wildcard::CompiledPatternMatcher::compile(
                            rule.folded_pattern.as_str(),
                        ),
                        full_path,
                        score: rule.score,
                    };
                    let ghost model = next@;
                    compiled.push(next);
                    if full_path {
                        needs_folded_path = true;
                    }
                    if rule.score > 0 {
                        ceiling = arith::sat_add(ceiling, rule.score);
                    }
                    proof {
                        assert(compiled_models(compiled@) =~= compiled_models(before).push(model));
                        assert(compiled_models(compiled@).drop_last() =~= compiled_models(before));
                        assert(compiled@[before.len() as int].full_path == full_path);
                        assert forall|k: int| 0 <= k < before.len() implies compiled@[k]
                            == before[k] by {}
                    }
                }
            }
            i += 1;
        }
        proof {
            assert(rules.take(rules.len() as int) =~= rules);
        }
        PreparedQuery {
            folded_search_text,
            tokens,
            compiled_pattern_rules: compiled,
            needs_folded_path,
            positive_pattern_score_ceiling: ceiling,
        }
    }

    /// The trimmed search text.
    pub fn folded_search_text(&self) -> (r: &str)
        ensures
            r@ == self.folded_search_text@,
    {
        self.folded_search_text.as_str()
    }

    /// What the pattern rules can add at most.
    pub fn positive_pattern_score_ceiling(&self) -> (r: i32)
        ensures
            r == self.positive_pattern_score_ceiling,
    {
        self.positive_pattern_score_ceiling
    }

    /// Scores the name of a candidate.
    pub fn score_candidate_name(
        &self,
        candidate: &PreparedCandidateName,
        folded_parent: &str,
        is_dir: bool,
        scoring: &ScoringConfig,
    ) -> (r: Option<i32>)
        requires
            self.well_formed(),
        ensures
            r == name_score(
                self.folded_search_text@,
                candidate.folded_title@,
                candidate.folded_stem@,
                folded_parent@,
                is_dir,
                *scoring,
            ),
    {
        score_name(
            self.folded_search_text.as_str(),
            self.tokens.as_slice(),
            candidate.folded_title.as_str(),
            candidate.folded_stem.as_str(),
            folded_parent,
            is_dir,
            scoring,
        )
    }

    /// The pattern score of an item.
    pub fn pattern_score(&self, path: &str, folded_file_name: &str) -> (r: i32)
        requires
            self.well_formed(),
        ensures
            r == arith::sat(
                compiled_total(
                    compiled_models(self.compiled_pattern_rules@),
                    text::fold(path@),
                    folded_file_name@,
                ) as int,
            ),
    {
        let folded_path = if self.needs_folded_path {
            let folded = text::fold_text(path);
            text::chars_of(folded.as_str())
        } else {
            Vec::new()
        };
        let name = text::chars_of(folded_file_name);
        let ghost models = compiled_models(self.compiled_pattern_rules@);
        let mut total: i64 = 0;
        let mut i: usize = 0;
        while i < self.compiled_pattern_rules.len()
            invariant
                i <= self.compiled_pattern_rules.len(),
                self.well_formed(),
                models == compiled_models(self.compiled_pattern_rules@),
                self.needs_folded_path ==> folded_path@ == text::fold(path@),
                name@ == folded_file_name@,
                total == compiled_total(
                    models.take(i as int),
                    text::fold(path@),
                    folded_file_name@,
                ),
            decreases self.compiled_pattern_rules.len() - i,
        {
            proof {
                assert(models.take(i + 1).drop_last() =~= models.take(i as int));
                assert(models.take(i + 1).last() == self.compiled_pattern_rules@[i as int]@);
            }
            let rule = &self.compiled_pattern_rules[i];
            let accepted = if rule.full_path {
                rule.matcher.matches(folded_path.as_slice())
            } else {
                rule.matcher.matches(name.as_slice())
            };
            if accepted {
                total = sat64_add(total, rule.score);
            }
            i += 1;
        }
        proof {
            assert(models.take(models.len() as int) =~= models);
        }
        arith::clamp_i64(total)
    }
}

proof fn lemma_compiled_total_is_rules_total(
    rules: Seq<PatternRule>,
    modifiers: Seq<Seq<char>>,
    any_match: bool,
    folded_path: Seq<char>,
    folded_name: Seq<char>,
)
    requires
        !folded_path.contains('*'),
        !folded_name.contains('*'),
    ensures
        compiled_total(compiled_rules(rules, modifiers, any_match), folded_path, folded_name)
            == rules_total(rules, modifiers, any_match, folded_path, Some(folded_name)),
    decreases rules.len(),
{
    if rules.len() > 0 {
        lemma_compiled_total_is_rules_total(
            rules.drop_last(),
            modifiers,
            any_match,
            folded_path,
            folded_name,
        );
        let rule = rules.last();
        let before = compiled_rules(rules.drop_last(), modifiers, any_match);
        let all = compiled_rules(rules, modifiers, any_match);
        if all.len() > before.len() {
            assert(all.drop_last() =~= before);
        }
        wildcard::lemma_compiled_is_glob(rule.folded_pattern@, folded_path);
        wildcard::lemma_compiled_is_glob(rule.folded_pattern@, folded_name);
        wildcard::lemma_wildcard_is_glob(rule.folded_pattern@, folded_path);
        wildcard::lemma_wildcard_is_glob(rule.folded_pattern@, folded_name);
    }
}

/// On paths without a star, a prepared query gives the pattern score that the
/// rules give one by one.
pub proof fn lemma_prepared_pattern_score(
    rules: Seq<PatternRule>,
    modifiers: Seq<Seq<char>>,
    path: Seq<char>,
)
    requires
        folded_file_name(path) is Some,
        !text::fold(path).contains('*'),
        !folded_file_name(path)->0.contains('*'),
    ensures
        arith::sat(
            compiled_total(
                compiled_rules(rules, modifiers, any_rule_matches(rules, modifiers)),
                text::fold(path),
                folded_file_name(path)->0,
            ) as int,
        ) == pattern_total(rules, modifiers, path),
{
    lemma_compiled_total_is_rules_total(
        rules,
        modifiers,
        any_rule_matches(rules, modifiers),
        text::fold(path),
        folded_file_name(path)->0,
    );
}

proof fn lemma_compiled_total_bounded(
    rules: Seq<CompiledRuleModel>,
    folded_path: Seq<char>,
    folded_name: Seq<char>,
)
    ensures
        arith::sat(compiled_total(rules, folded_path, folded_name) as int) <= positive_total(rules),
        compiled_total(rules, folded_path, folded_name) <= i32::MAX ==> compiled_total(
            rules,
            folded_path,
            folded_name,
        ) <= positive_total(rules),
        positive_total(rules) >= 0,
    decreases rules.len(),
{
    if rules.len() > 0 {
        lemma_compiled_total_bounded(rules.drop_last(), folded_path, folded_name);
    }
}

/// The pattern score never exceeds the ceiling of the positive scores.
pub proof fn lemma_pattern_score_ceiling(
    rules: Seq<CompiledRuleModel>,
    folded_path: Seq<char>,
    folded_name: Seq<char>,
)
    ensures
        arith::sat(compiled_total(rules, folded_path, folded_name) as int) <= positive_total(rules),
{
    lemma_compiled_total_bounded(rules, folded_path, folded_name);
}

// ---------------------------------------------------------------------------
// Keywords in words
// ---------------------------------------------------------------------------

/// A keyword as it is shown.
pub open spec fn keyword_shown(keyword: Seq<char>) -> Seq<char> {
    if text::same_ignoring_ascii_case(keyword, "[blank]"@) {
        "[Blank]"@
    } else {
        keyword
    }
}

/// Keywords as they are shown.
pub open spec fn keywords_shown(keywords: Seq<Seq<char>>) -> Seq<char> {
    text::join(Seq::new(keywords.len(), |i: int| keyword_shown(keywords[i])), ","@)
}

/// A keyword as it is shown.
pub fn modifier_keyword_display(keyword: &str) -> (r: String)
    ensures
        r@ == keyword_shown(keyword@),
{
    let k = text::chars_of(keyword);
    let blank = text::chars_of("[blank]");
    if text::equal_ignoring_ascii_case(k.as_slice(), blank.as_slice()) {
        "[Blank]".to_owned()
    } else {
        keyword.to_owned()
    }
}

/// Keywords as they are shown.
pub fn search_folder_modifier_display(keywords: &[String]) -> (r: String)
    ensures
        r@ == keywords_shown(text::texts(keywords@)),
{
    let mut parts: Vec<String> = Vec::new();
    let mut i: usize = 0;
    let ghost all = text::texts(keywords@);
    let ghost shown = Seq::new(all.len(), |i: int| keyword_shown(all[i]));
    while i < keywords.len()
        invariant
            i <= keywords.len(),
            all == text::texts(keywords@),
            shown == Seq::new(all.len(), |i: int| keyword_shown(all[i])),
            text::texts(parts@) == shown.take(i as int),
        decreases keywords.len() - i,
    {
        let ghost before = parts@;
        let part = modifier_keyword_display(keywords[i].as_str());
        let ghost view = part@;
        parts.push(part);
        proof {
            assert(view == shown[i as int]);
            assert(text::texts(parts@) =~= text::texts(before).push(view));
            assert(shown.take(i + 1) =~= shown.take(i as int).push(view));
        }
        i += 1;
    }
    proof {
        assert(shown.take(keywords@.len() as int) =~= shown);
    }
    text::join_texts(parts.as_slice(), ",")
}


/// Whether some rule matches a path.
pub fn is_allowed_by_pattern_scoring(path: &str, scoring: &ScoringConfig) -> (r: bool)
    ensures
        r == exists|i: int|
            0 <= i < scoring.pattern_rules@.len() && #[trigger] rule_matches(
                scoring.pattern_rules@[i],
                text::fold(path@),
                folded_file_name(path@),
            ),
{
    let folded_path = text::fold_text(path);
    let mut i: usize = 0;
    while i < scoring.pattern_rules.len()
        invariant
            i <= scoring.pattern_rules@.len(),
            folded_path@ == text::fold(path@),
            forall|k: int|
                0 <= k < i ==> !#[trigger] rule_matches(
                    scoring.pattern_rules@[k],
                    text::fold(path@),
                    folded_file_name(path@),
                ),
        decreases scoring.pattern_rules@.len() - i,
    {
        if wildcard_rule_matches(&scoring.pattern_rules[i], path, folded_path.as_str()) {
            return true;
        }
        i = i + 1;
    }
    false
}



// ---------------------------------------------------------------------------
// Queries that grow
// ---------------------------------------------------------------------------

/// A token fits the title or stands in the parent.
pub open spec fn token_fits(
    token: Seq<char>,
    candidate: Seq<char>,
    parent: Seq<char>,
    scoring: ScoringConfig,
) -> bool {
    text_score(token, candidate, scoring) is Some || in_parent(parent, token)
}

/// When tokens have a sum, and what it is at least.
proof fn lemma_token_sum_is(
    tokens: Seq<Seq<char>>,
    candidate: Seq<char>,
    parent: Seq<char>,
    scoring: ScoringConfig,
)
    ensures
        token_sum(tokens, candidate, parent, scoring) is Some <==> forall|i: int|
            0 <= i < tokens.len() ==> token_fits(#[trigger] tokens[i], candidate, parent, scoring),
        token_sum(tokens, candidate, parent, scoring) matches Some(sum) ==> {
            &&& sum.total >= arith::min_int(sum.count as int, i32::MAX as int)
            &&& sum.count <= tokens.len()
            &&& sum.count > 0 <==> exists|i: int|
                0 <= i < tokens.len() && text_score(#[trigger] tokens[i], candidate, scoring) is Some
        },
    decreases tokens.len(),
{
    if tokens.len() > 0 {
        let before = tokens.drop_last();
        let n = tokens.len() - 1;
        lemma_token_sum_is(before, candidate, parent, scoring);
        assert(tokens.last() == tokens[n]);
        assert forall|i: int| 0 <= i < before.len() implies before[i] == #[trigger] tokens[i] by {}
        if token_sum(tokens, candidate, parent, scoring) is Some {
            assert forall|i: int| 0 <= i < tokens.len() implies token_fits(
                #[trigger] tokens[i],
                candidate,
                parent,
                scoring,
            ) by {
                if i < n {
                    assert(token_fits(before[i], candidate, parent, scoring));
                }
            }
            let sum = token_sum(tokens, candidate, parent, scoring)->0;
            if sum.count > 0 {
                if text_score(tokens[n], candidate, scoring) is None {
                    let i = choose|i: int|
                        0 <= i < before.len() && text_score(
                            #[trigger] before[i],
                            candidate,
                            scoring,
                        ) is Some;
                    assert(text_score(tokens[i], candidate, scoring) is Some);
                }
            }
            if exists|i: int|
                0 <= i < tokens.len() && text_score(#[trigger] tokens[i], candidate, scoring)
                    is Some {
                let i = choose|i: int|
                    0 <= i < tokens.len() && text_score(#[trigger] tokens[i], candidate, scoring)
                        is Some;
                if i < n {
                    assert(text_score(before[i], candidate, scoring) is Some);
                }
            }
        } else if forall|i: int|
            0 <= i < tokens.len() ==> token_fits(#[trigger] tokens[i], candidate, parent, scoring) {
            assert forall|i: int| 0 <= i < before.len() implies token_fits(
                #[trigger] before[i],
                candidate,
                parent,
                scoring,
            ) by {
                assert(token_fits(tokens[i], candidate, parent, scoring));
            }
            assert(token_fits(tokens[n], candidate, parent, scoring));
        }
    }
}

/// Two or more tokens match where each of them fits and one of them fits the title.
pub proof fn lemma_token_match_is(
    tokens: Seq<Seq<char>>,
    candidate: Seq<char>,
    parent: Seq<char>,
    scoring: ScoringConfig,
)
    requires
        2 <= tokens.len() <= i32::MAX,
    ensures
        token_match(tokens, candidate, parent, scoring) is Some <==> (forall|i: int|
            0 <= i < tokens.len() ==> token_fits(#[trigger] tokens[i], candidate, parent, scoring))
            && exists|i: int|
            0 <= i < tokens.len() && text_score(#[trigger] tokens[i], candidate, scoring) is Some,
{
    lemma_token_sum_is(tokens, candidate, parent, scoring);
    match token_sum(tokens, candidate, parent, scoring) {
        Some(sum) => {
            if sum.count > 0 {
                let total = sum.total as int;
                let count = sum.count as int;
                assert(total / count >= 1) by (nonlinear_arith)
                    requires
                        total >= count,
                        count > 0,
                ;
            }
        },
        None => {},
    }
}

/// A match of a text is worth something.
pub open spec fn is_worth(query: Seq<char>, candidate: Seq<char>, scoring: ScoringConfig) -> bool {
    fuzzy::fuzzy(query, candidate, scoring) is Some ==> text_score(query, candidate, scoring) is Some
}

/// A word that another begins with fits what the other fits.
pub proof fn lemma_shorter_word_fits(
    word: Seq<char>,
    longer: Seq<char>,
    candidate: Seq<char>,
    parent: Seq<char>,
    scoring: ScoringConfig,
)
    requires
        word.len() > 0,
        text::trimmed(longer) == longer,
        text::has_prefix(longer, word),
        is_worth(word, candidate, scoring),
    ensures
        text_score(longer, candidate, scoring) is Some ==> text_score(word, candidate, scoring)
            is Some,
        in_parent(parent, longer) ==> in_parent(parent, word),
{
    let n = word.len() as int;
    assert(longer.take(n) =~= longer.subrange(0, n));
    if text_score(longer, candidate, scoring) is Some {
        fuzzy::lemma_prefix_is_found(longer, candidate, scoring, n);
    }
    if in_parent(parent, longer) {
        let i = choose|i: int| text::occurs_at(parent, longer, i);
        assert(parent.subrange(i, i + n) =~= parent.subrange(i, i + longer.len()).subrange(0, n));
        assert(text::occurs_at(parent, word, i));
    }
}

// ---------------------------------------------------------------------------
// What keywords are for
// ---------------------------------------------------------------------------

/// Keywords select a query without modifiers where one of them is the text `[blank]`, and
/// only there.
pub proof fn lemma_plain_query_is_for_blank(keywords: Seq<Seq<char>>)
    ensures
        keywords_match(keywords, Seq::empty()) <==> exists|i: int|
            0 <= i < keywords.len() && #[trigger] keywords[i] == "[blank]"@,
{
    let none = Seq::<Seq<char>>::empty();
    assert(!keywords_reject(keywords, none));
    if keywords_match(keywords, none) {
        let i = keywords.index_of("[blank]"@);
        assert(keywords[i] == "[blank]"@);
    }
}

/// Keywords select a query with modifiers where none of them is a minus and a modifier, and
/// one of them is a star or, without a minus in front, a modifier; and only there.
pub proof fn lemma_asked_keywords_select(keywords: Seq<Seq<char>>, modifiers: Seq<Seq<char>>)
    requires
        modifiers.len() > 0,
    ensures
        keywords_match(keywords, modifiers) <==> {
            &&& forall|i: int, j: int|
                0 <= i < keywords.len() && 0 <= j < modifiers.len() ==> #[trigger] keywords[i]
                    != seq!['-'] + #[trigger] modifiers[j]
            &&& exists|i: int| #![trigger keywords[i]]
                0 <= i < keywords.len() && (keywords[i] == "*"@ || (keywords[i] != "[blank]"@ && (
                keywords[i].len() == 0 || keywords[i][0] != '-') && exists|j: int|
                    0 <= j < modifiers.len() && #[trigger] modifiers[j] == keywords[i]))
        },
{
    let rejected = exists|i: int, j: int|
        0 <= i < keywords.len() && 0 <= j < modifiers.len() && #[trigger] keywords[i] == seq!['-']
            + #[trigger] modifiers[j];
    assert(keywords_reject(keywords, modifiers) == rejected) by {
        if rejected {
            let (i, j) = choose|i: int, j: int|
                0 <= i < keywords.len() && 0 <= j < modifiers.len() && #[trigger] keywords[i]
                    == seq!['-'] + #[trigger] modifiers[j];
            assert((seq!['-'] + modifiers[j]).drop_first() =~= modifiers[j]);
            assert(keywords[i].len() > 0 && keywords[i][0] == '-');
            assert(modifiers.contains(keywords[i].drop_first()));
        }
        if keywords_reject(keywords, modifiers) {
            let i = choose|i: int|
                0 <= i < keywords.len() && (#[trigger] keywords[i]).len() > 0 && keywords[i][0]
                    == '-' && modifiers.contains(keywords[i].drop_first());
            let j = modifiers.index_of(keywords[i].drop_first());
            assert(keywords[i] =~= seq!['-'] + modifiers[j]);
        }
    }
    if keywords_match(keywords, modifiers) {
        let i = choose|i: int|
            0 <= i < keywords.len() && keyword_accepts(#[trigger] keywords[i], modifiers);
        if keywords[i] != "*"@ {
            let j = modifiers.index_of(keywords[i]);
            assert(modifiers[j] == keywords[i]);
        }
    } else if !rejected {
        assert forall|i: int| #![trigger keywords[i]] 0 <= i < keywords.len() implies !(keywords[i]
            == "*"@ || (keywords[i] != "[blank]"@ && (keywords[i].len() == 0 || keywords[i][0]
            != '-') && exists|j: int|
            0 <= j < modifiers.len() && #[trigger] modifiers[j] == keywords[i])) by {
            assert(!keyword_accepts(keywords[i], modifiers));
        }
    }
}

/// A rule without keywords applies to every query without modifiers, and to one with
/// modifiers where they select no rule; a rule with keywords applies where they select it,
/// whatever else is selected.
pub proof fn lemma_keywords_decide_alone(keywords: Seq<Seq<char>>, modifiers: Seq<Seq<char>>)
    ensures
        keywords_apply(Seq::empty(), modifiers, false),
        keywords_apply(Seq::empty(), modifiers, true) <==> modifiers == Seq::<Seq<char>>::empty(),
        keywords.len() > 0 ==> keywords_apply(keywords, modifiers, true) == keywords_apply(
            keywords,
            modifiers,
            false,
        ),
        keywords.len() > 0 && modifiers.len() == 0 ==> (keywords_apply(keywords, modifiers, true)
            <==> keywords.contains("[blank]"@)),
        keywords.len() > 0 ==> keywords_apply(keywords, modifiers, true) == keywords_match(
            keywords,
            modifiers,
        ),
{
    if modifiers.len() == 0 {
        assert(modifiers =~= Seq::empty());
        lemma_plain_query_is_for_blank(keywords);
    }
}

// ---------------------------------------------------------------------------
// What names are worth
// ---------------------------------------------------------------------------

/// The initials of a name are the letters and digits that words begin with: those at the
/// start or behind something that is neither, all of them and in their order.
pub proof fn lemma_initials(candidate: Seq<char>, n: int)
    requires
        0 <= n <= candidate.len(),
    ensures
        ({
            let wanted = |p: int|
                text::unicode_alphanumeric(candidate[p]) && (p == 0 || !text::unicode_alphanumeric(
                    candidate[p - 1],
                ));
            exists|starts: Seq<int>| #[trigger]
                places::picks_all(starts, n, wanted) && initials(candidate, n) == places::picked(
                    candidate,
                    starts,
                )
        }),
    decreases n,
{
    let wanted = |p: int|
        text::unicode_alphanumeric(candidate[p]) && (p == 0 || !text::unicode_alphanumeric(
            candidate[p - 1],
        ));
    if n > 0 {
        lemma_initials(candidate, n - 1);
        let starts = choose|starts: Seq<int>| #[trigger]
            places::picks_all(starts, n - 1, wanted) && initials(candidate, n - 1)
                == places::picked(candidate, starts);
        places::lemma_pick_one_more(starts, n - 1, wanted);
        if wanted(n - 1) {
            assert(places::picks_all(starts.push(n - 1), n, wanted));
            assert(places::picked(candidate, starts.push(n - 1)) =~= places::picked(
                candidate,
                starts,
            ).push(candidate[n - 1]));
        } else {
            assert(places::picks_all(starts, n, wanted));
        }
    } else {
        assert(places::picks_all(Seq::<int>::empty(), n, wanted));
        assert(places::picked(candidate, Seq::<int>::empty()) =~= Seq::<char>::empty());
    }
}

/// A name is worth its match and the bonuses that hold of it: for a name that is the query,
/// one with the query as a word, one that begins with it, one with a word that does, one
/// whose initials do, and one that holds it in one piece; wherever no part is extreme.
pub proof fn lemma_bonuses(base: i32, query: Seq<char>, candidate: Seq<char>, scoring: ScoringConfig)
    requires
        -200_000_000 <= base <= 200_000_000,
        -200_000_000 <= scoring.exact_match_bonus <= 200_000_000,
        -200_000_000 <= scoring.exact_word_bonus <= 200_000_000,
        -200_000_000 <= scoring.prefix_match_bonus <= 200_000_000,
        -200_000_000 <= scoring.word_boundary_bonus <= 200_000_000,
        -200_000_000 <= scoring.acronym_match_bonus <= 200_000_000,
        -200_000_000 <= scoring.consecutive_match_bonus <= 200_000_000,
    ensures
        ({
            let n = query.len() as int;
            let whole = candidate == query;
            let front = n <= candidate.len() && candidate.take(n) == query;
            let inside = exists|i: int|
                0 <= i && i + n <= candidate.len() && #[trigger] candidate.subrange(i, i + n)
                    == query;
            let word_begins = exists|i: int|
                0 <= i < candidate.len() && i + n <= candidate.len() && text::unicode_alphanumeric(
                    candidate[i],
                ) && (i == 0 || !text::unicode_alphanumeric(candidate[i - 1]))
                    && #[trigger] candidate.subrange(i, i + n) == query;
            let word = exists|i: int|
                0 <= i < candidate.len() && i + n <= candidate.len() && text::unicode_alphanumeric(
                    candidate[i],
                ) && (i == 0 || !text::unicode_alphanumeric(candidate[i - 1]))
                    && #[trigger] candidate.subrange(i, i + n) == query && (i + n == candidate.len()
                    || !text::unicode_alphanumeric(candidate[i + n]));
            let letters = initials(candidate, candidate.len() as int);
            let short = n <= letters.len() && letters.take(n) == query;
            bonus_score(base, query, candidate, scoring) == base + (if whole {
                scoring.exact_match_bonus as int
            } else {
                0
            }) + (if word {
                scoring.exact_word_bonus as int
            } else {
                0
            }) + (if front {
                scoring.prefix_match_bonus as int
            } else {
                0
            }) + (if word_begins {
                scoring.word_boundary_bonus as int
            } else {
                0
            }) + (if short {
                scoring.acronym_match_bonus as int
            } else {
                0
            }) + (if inside {
                scoring.consecutive_match_bonus as int
            } else {
                0
            })
        }),
{
    let n = query.len() as int;
    let letters = initials(candidate, candidate.len() as int);
    if n <= candidate.len() {
        assert(candidate.take(n) =~= candidate.subrange(0, n));
    }
    if n <= letters.len() {
        assert(letters.take(n) =~= letters.subrange(0, n));
    }
    assert(text::has_infix(candidate, query) == exists|i: int|
        0 <= i && i + n <= candidate.len() && #[trigger] candidate.subrange(i, i + n) == query) by {
        if text::has_infix(candidate, query) {
            let i = choose|i: int| text::occurs_at(candidate, query, i);
            assert(candidate.subrange(i, i + n) == query);
        }
        if exists|i: int|
            0 <= i && i + n <= candidate.len() && #[trigger] candidate.subrange(i, i + n) == query {
            let i = choose|i: int|
                0 <= i && i + n <= candidate.len() && #[trigger] candidate.subrange(i, i + n)
                    == query;
            assert(text::occurs_at(candidate, query, i));
        }
    }
    assert(at_word_boundary(candidate, query) == exists|i: int|
        0 <= i < candidate.len() && i + n <= candidate.len() && text::unicode_alphanumeric(
            candidate[i],
        ) && (i == 0 || !text::unicode_alphanumeric(candidate[i - 1])) && #[trigger] candidate.subrange(
            i,
            i + n,
        ) == query) by {
        if at_word_boundary(candidate, query) {
            let i = choose|i: int|
                #[trigger] word_start(candidate, i) && text::occurs_at(candidate, query, i);
            assert(candidate.subrange(i, i + n) == query);
        }
        if exists|i: int|
            0 <= i < candidate.len() && i + n <= candidate.len() && text::unicode_alphanumeric(
                candidate[i],
            ) && (i == 0 || !text::unicode_alphanumeric(candidate[i - 1]))
                && #[trigger] candidate.subrange(i, i + n) == query {
            let i = choose|i: int|
                0 <= i < candidate.len() && i + n <= candidate.len() && text::unicode_alphanumeric(
                    candidate[i],
                ) && (i == 0 || !text::unicode_alphanumeric(candidate[i - 1]))
                    && #[trigger] candidate.subrange(i, i + n) == query;
            assert(word_start(candidate, i) && text::occurs_at(candidate, query, i));
        }
    }
    assert(is_exact_word(candidate, query) == exists|i: int|
        0 <= i < candidate.len() && i + n <= candidate.len() && text::unicode_alphanumeric(
            candidate[i],
        ) && (i == 0 || !text::unicode_alphanumeric(candidate[i - 1])) && #[trigger] candidate.subrange(
            i,
            i + n,
        ) == query && (i + n == candidate.len() || !text::unicode_alphanumeric(candidate[i + n])))
        by {
        if is_exact_word(candidate, query) {
            let i = choose|i: int|
                #[trigger] word_start(candidate, i) && text::occurs_at(candidate, query, i) && (i
                    + query.len() == candidate.len() || !text::unicode_alphanumeric(
                    candidate[i + query.len()],
                ));
            assert(candidate.subrange(i, i + n) == query);
        }
        if exists|i: int|
            0 <= i < candidate.len() && i + n <= candidate.len() && text::unicode_alphanumeric(
                candidate[i],
            ) && (i == 0 || !text::unicode_alphanumeric(candidate[i - 1]))
                && #[trigger] candidate.subrange(i, i + n) == query && (i + n == candidate.len()
                || !text::unicode_alphanumeric(candidate[i + n])) {
            let i = choose|i: int|
                0 <= i < candidate.len() && i + n <= candidate.len() && text::unicode_alphanumeric(
                    candidate[i],
                ) && (i == 0 || !text::unicode_alphanumeric(candidate[i - 1]))
                    && #[trigger] candidate.subrange(i, i + n) == query && (i + n == candidate.len()
                    || !text::unicode_alphanumeric(candidate[i + n]));
            assert(word_start(candidate, i) && text::occurs_at(candidate, query, i));
        }
    }
}

/// A name fits a query that is not blank where the letters of the query stand in it in their
/// order and their worth with the bonuses is above nothing; a blank query fits every name
/// with one point.
pub proof fn lemma_names_fit(query: Seq<char>, candidate: Seq<char>, scoring: ScoringConfig)
    ensures
        text::trimmed(query).len() == 0 ==> text_score(query, candidate, scoring) == Some(1i32),
        text::trimmed(query).len() > 0 ==> (text_score(query, candidate, scoring) is Some <==> (
        exists|positions: Seq<int>|
            positions.len() == text::trimmed(query).len() && #[trigger] places::rising(
                positions,
                candidate.len() as int,
            ) && forall|k: int|
                0 <= k < text::trimmed(query).len() ==> candidate[#[trigger] positions[k]]
                    == text::trimmed(query)[k]) && bonus_score(
            fuzzy::fuzzy(text::trimmed(query), candidate, scoring)->0,
            text::trimmed(query),
            candidate,
            scoring,
        ) > 0),
        text_score(query, candidate, scoring) matches Some(score) ==> score > 0,
        text::trimmed(query).len() > 0 ==> (text_score(query, candidate, scoring) matches Some(score)
            ==> score == bonus_score(
            fuzzy::fuzzy(text::trimmed(query), candidate, scoring)->0,
            text::trimmed(query),
            candidate,
            scoring,
        )),
{
    let q = text::trimmed(query);
    fuzzy::lemma_found_where_letters_stand_in_order(q, candidate, scoring);
    if q.len() > 0 && candidate.len() == 0 {
        assert forall|positions: Seq<int>|
            positions.len() == q.len() && #[trigger] places::rising(
                positions,
                candidate.len() as int,
            ) implies false by {
            assert(0 <= positions[0] < candidate.len());
        }
    }
}

/// A name is worth the better of two: what the whole query is worth on it, and the average of
/// its words. A file whose stem is the query gets the bonus for exact names on top.
pub proof fn lemma_the_better_way_counts(
    query: Seq<char>,
    title: Seq<char>,
    stem: Seq<char>,
    parent: Seq<char>,
    is_dir: bool,
    scoring: ScoringConfig,
)
    ensures
        ({
            let whole = text_score(query, title, scoring);
            let words = token_match(text::words(query), title, parent, scoring);
            let average = match words {
                Some((score, _)) => score,
                None => 0,
            };
            let found = name_score(query, title, stem, parent, is_dir, scoring);
            let named = !is_dir && stem.len() > 0 && stem == text::trimmed(query) && title
                != text::trimmed(query);
            &&& found is Some <==> whole is Some || words is Some
            &&& !named && whole is Some ==> found->0 >= whole->0
            &&& !named && words is Some && average <= i32::MAX ==> found->0 >= average
            &&& !named && found is Some && (words is Some ==> average <= i32::MAX) ==> (
            whole == found || (words is Some && average == found->0))
            &&& named && found is Some && (words is Some ==> average <= i32::MAX) ==> {
                let plain = name_score(query, title, Seq::empty(), parent, is_dir, scoring)->0;
                plain + scoring.exact_match_bonus <= i32::MAX && plain + scoring.exact_match_bonus
                    >= i32::MIN ==> found->0 == plain + scoring.exact_match_bonus
            }
        }),
{
}

/// Words count together: the average is over the words that fit the title, so two or more
/// words that all fit it are worth what they are worth on their own, added up and shared out.
pub proof fn lemma_average_of_words(
    tokens: Seq<Seq<char>>,
    candidate: Seq<char>,
    parent: Seq<char>,
    scoring: ScoringConfig,
    next: Seq<char>,
)
    requires
        token_sum(tokens, candidate, parent, scoring) is Some,
    ensures
        ({
            let sum = token_sum(tokens, candidate, parent, scoring)->0;
            let more = token_sum(tokens.push(next), candidate, parent, scoring);
            let own = text_score(next, candidate, scoring);
            let there = parent.len() > 0 && exists|i: int|
                0 <= i && i + next.len() <= parent.len() && #[trigger] parent.subrange(
                    i,
                    i + next.len(),
                ) == next;
            &&& more is Some <==> own is Some || there
            &&& own is Some && sum.total + own->0 <= i32::MAX && sum.total >= 0 ==> more->0.total
                == sum.total + own->0 && more->0.count == sum.count + 1
            &&& own is None && there ==> more->0.total == sum.total && more->0.count == sum.count
            &&& more is Some ==> (more->0.matched_parent <==> sum.matched_parent || there)
        }),
{
    assert(tokens.push(next).drop_last() =~= tokens);
    lemma_in_parent(parent, next);
    let own = text_score(next, candidate, scoring);
    lemma_names_fit(next, candidate, scoring);
}

proof fn lemma_in_parent(parent: Seq<char>, token: Seq<char>)
    ensures
        in_parent(parent, token) <==> parent.len() > 0 && exists|i: int|
            0 <= i && i + token.len() <= parent.len() && #[trigger] parent.subrange(
                i,
                i + token.len(),
            ) == token,
{
    if text::has_infix(parent, token) {
        let i = choose|i: int| text::occurs_at(parent, token, i);
        assert(parent.subrange(i, i + token.len()) == token);
    }
    if exists|i: int|
        0 <= i && i + token.len() <= parent.len() && #[trigger] parent.subrange(i, i + token.len())
            == token {
        let i = choose|i: int|
            0 <= i && i + token.len() <= parent.len() && #[trigger] parent.subrange(
                i,
                i + token.len(),
            ) == token;
        assert(text::occurs_at(parent, token, i));
    }
}

/// The folder counts for a query where it holds the query in one piece, each of two or more
/// words of it, or one of the words while the others fit the title; never for a blank query.
pub proof fn lemma_folder_counts(
    query: Seq<char>,
    title: Seq<char>,
    parent: Seq<char>,
    scoring: ScoringConfig,
)
    ensures
        text::trimmed(query).len() == 0 || parent.len() == 0 ==> parent_score(
            query,
            title,
            parent,
            scoring,
        ) == 0,
        text::trimmed(query).len() > 0 && parent.len() > 0 ==> {
            let words = text::words(query);
            let held = exists|i: int|
                0 <= i && i + text::trimmed(query).len() <= parent.len()
                    && #[trigger] parent.subrange(i, i + text::trimmed(query).len())
                    == text::trimmed(query);
            let each = words.len() >= 2 && forall|k: int|
                0 <= k < words.len() ==> in_parent(parent, #[trigger] words[k]);
            let some = token_match(words, title, parent, scoring) matches Some((_, there)) && there;
            parent_score(query, title, parent, scoring) == (if held || each || some {
                scoring.explicit_folder_name_match_adjustment as int
            } else {
                0
            })
        },
{
    if text::trimmed(query).len() > 0 && parent.len() > 0 {
        lemma_in_parent(parent, text::trimmed(query));
        let words = text::words(query);
        assert(forall|k: int|
            0 <= k < words.len() ==> (in_parent(parent, #[trigger] words[k]) == text::has_infix(
                parent,
                words[k],
            )));
    }
}

/// A pattern rule looks at the whole path where its pattern holds a separator, and else at
/// the name; a blank pattern fits nothing.
pub proof fn lemma_patterns_look_at(
    rule: PatternRule,
    folded_path: Seq<char>,
    folded_name: Option<Seq<char>>,
)
    ensures
        ({
            let pattern = text::trimmed(rule.pattern@);
            let whole = exists|i: int|
                0 <= i < pattern.len() && (#[trigger] pattern[i] == '\\' || pattern[i] == '/');
            rule_matches(rule, folded_path, folded_name) == (pattern.len() > 0 && if whole {
                wildcard::wildcard(rule.folded_pattern@, folded_path)
            } else {
                folded_name matches Some(name) && wildcard::wildcard(rule.folded_pattern@, name)
            })
        }),
{
    let pattern = text::trimmed(rule.pattern@);
    if pattern.contains('\\') {
        let i = pattern.index_of('\\');
        assert(pattern[i] == '\\');
    }
    if pattern.contains('/') {
        let i = pattern.index_of('/');
        assert(pattern[i] == '/');
    }
}

/// Each pattern rule that applies and fits adds its score, and no other adds anything: the
/// rules of two lists one behind the other add up.
pub proof fn lemma_rules_add_up(
    a: Seq<PatternRule>,
    b: Seq<PatternRule>,
    modifiers: Seq<Seq<char>>,
    any_match: bool,
    folded_path: Seq<char>,
    folded_name: Option<Seq<char>>,
    rule: PatternRule,
)
    ensures
        rules_sum(a + b, modifiers, any_match, folded_path, folded_name) == rules_sum(
            a,
            modifiers,
            any_match,
            folded_path,
            folded_name,
        ) + rules_sum(b, modifiers, any_match, folded_path, folded_name),
        rules_sum(seq![rule], modifiers, any_match, folded_path, folded_name) == (if keywords_apply(
            text::texts(rule.modifiers@),
            modifiers,
            any_match,
        ) && rule_matches(rule, folded_path, folded_name) {
            rule.score as int
        } else {
            0
        }),
        rules_sum(Seq::empty(), modifiers, any_match, folded_path, folded_name) == 0,
    decreases b.len(),
{
    assert(seq![rule].drop_last() =~= Seq::<PatternRule>::empty());
    reveal_with_fuel(rules_sum, 2);
    if b.len() == 0 {
        assert(a + b =~= a);
    } else {
        assert((a + b).drop_last() =~= a + b.drop_last());
        lemma_rules_add_up(
            a,
            b.drop_last(),
            modifiers,
            any_match,
            folded_path,
            folded_name,
            rule,
        );
    }
}

/// What several words are worth is the average of those that fit the name, rounded down.
pub proof fn lemma_words_count_on_average(
    tokens: Seq<Seq<char>>,
    candidate: Seq<char>,
    parent: Seq<char>,
    scoring: ScoringConfig,
)
    ensures
        tokens.len() < 2 ==> token_match(tokens, candidate, parent, scoring) is None,
        token_match(tokens, candidate, parent, scoring) matches Some((average, there)) ==> ({
            &&& token_sum(tokens, candidate, parent, scoring) matches Some(sum)
            &&& sum.count > 0
            &&& average > 0
            &&& average * sum.count <= sum.total < (average + 1) * sum.count
            &&& there == sum.matched_parent
        }),
{
    if let Some((average, there)) = token_match(tokens, candidate, parent, scoring) {
        let sum = token_sum(tokens, candidate, parent, scoring)->0;
        lemma_token_sum_is(tokens, candidate, parent, scoring);
        let total = sum.total as int;
        let count = sum.count as int;
        assert(total >= 0);
        assert(average == total / count);
        assert(average * count <= total < (average + 1) * count) by (nonlinear_arith)
            requires
                average == total / count,
                total >= 0,
                count > 0,
        ;
    }
}

/// Keywords are shown as they are, but the one for queries without keywords with a capital.
pub proof fn lemma_shown_keywords(keyword: Seq<char>)
    ensures
        !text::same_ignoring_ascii_case(keyword, "[blank]"@) ==> keyword_shown(keyword) == keyword,
        text::same_ignoring_ascii_case(keyword_shown(keyword), keyword),
        keyword_shown("[blank]"@) == "[Blank]"@,
        keywords_shown(seq![keyword]) == keyword_shown(keyword),
        keywords_shown(Seq::empty()).len() == 0,
{
    reveal_strlit("[blank]");
    reveal_strlit("[Blank]");
    assert(text::ascii_lower_seq("[Blank]"@) =~= text::ascii_lower_seq("[blank]"@)) by {
        assert(text::ascii_lower('B') == 'b');
    }
    let one = seq![keyword];
    assert(Seq::new(one.len(), |i: int| keyword_shown(one[i])) =~= seq![keyword_shown(keyword)]);
}

/// Rules with a word are for queries that ask for it, so a query without keywords is scored by
/// the rules without keywords and those for such queries.
pub proof fn lemma_rules_for_plain_queries(rule: PatternRule, any_match: bool)
    ensures
        keywords_apply(text::texts(rule.modifiers@), Seq::empty(), any_match) <==> rule.modifiers@.len()
            == 0 || exists|k: int|
            0 <= k < rule.modifiers@.len() && (#[trigger] rule.modifiers@[k])@ == "[blank]"@,
{
    let all = text::texts(rule.modifiers@);
    lemma_plain_query_is_for_blank(all);
    if exists|i: int| 0 <= i < all.len() && #[trigger] all[i] == "[blank]"@ {
        let i = choose|i: int| 0 <= i < all.len() && #[trigger] all[i] == "[blank]"@;
        assert(rule.modifiers@[i]@ == "[blank]"@);
    }
    if exists|k: int|
        0 <= k < rule.modifiers@.len() && (#[trigger] rule.modifiers@[k])@ == "[blank]"@ {
        let k = choose|k: int|
            0 <= k < rule.modifiers@.len() && (#[trigger] rule.modifiers@[k])@ == "[blank]"@;
        assert(all[k] == "[blank]"@);
    }
}

/// What rules can add at most is the sum of those that add anything.
pub proof fn lemma_ceilings_add_up(rules: Seq<CompiledRuleModel>, rule: CompiledRuleModel)
    ensures
        positive_total(rules) >= 0,
        positive_total(Seq::empty()) == 0,
        rule.score <= 0 ==> positive_total(rules.push(rule)) == positive_total(rules),
        rule.score > 0 && positive_total(rules) + rule.score <= i32::MAX ==> positive_total(
            rules.push(rule),
        ) == positive_total(rules) + rule.score,
    decreases rules.len(),
{
    assert(rules.push(rule).drop_last() =~= rules);
    if rules.len() > 0 {
        lemma_ceilings_add_up(rules.drop_last(), rules.last());
        assert(rules.drop_last().push(rules.last()) =~= rules);
    }
}

} // verus!
