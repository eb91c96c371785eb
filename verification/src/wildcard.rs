//! Wildcard patterns: `?` stands for one character, `*` for any run.

use crate::text;
use vstd::prelude::*;

verus! {

// ---------------------------------------------------------------------------
// What a pattern means
// ---------------------------------------------------------------------------

/// The texts that a pattern describes.
pub open spec fn glob(pattern: Seq<char>, candidate: Seq<char>) -> bool
    decreases pattern.len(), candidate.len(),
{
    if pattern.len() == 0 {
        candidate.len() == 0
    } else if pattern[0] == '*' {
        glob(pattern.drop_first(), candidate) || (candidate.len() > 0 && glob(
            pattern,
            candidate.drop_first(),
        ))
    } else {
        candidate.len() > 0 && (pattern[0] == '?' || pattern[0] == candidate[0]) && glob(
            pattern.drop_first(),
            candidate.drop_first(),
        )
    }
}

/// Only stars from position `i` on.
pub open spec fn only_stars(pattern: Seq<char>, i: int) -> bool {
    forall|k: int| i <= k < pattern.len() ==> #[trigger] pattern[k] == '*'
}

/// The matching procedure: it walks pattern and candidate together and, on a
/// mismatch, goes back to the last star met and lets it stand for one
/// character more.
pub open spec fn wildcard_walk(
    pattern: Seq<char>,
    candidate: Seq<char>,
    pi: int,
    ci: int,
    star: Option<int>,
    star_ci: int,
) -> bool
    decreases candidate.len() - star_ci, candidate.len() - ci, pattern.len() - pi,
    when 0 <= star_ci <= ci <= candidate.len() && 0 <= pi <= pattern.len() && (star matches Some(s)
        ==> 0 <= s < pattern.len())
{
    if ci >= candidate.len() {
        only_stars(pattern, pi)
    } else if pi < pattern.len() && (pattern[pi] == '?' || pattern[pi] == candidate[ci]) {
        wildcard_walk(pattern, candidate, pi + 1, ci + 1, star, star_ci)
    } else if pi < pattern.len() && pattern[pi] == '*' {
        wildcard_walk(pattern, candidate, pi + 1, ci, Some(pi), ci)
    } else {
        match star {
            Some(s) => wildcard_walk(pattern, candidate, s + 1, star_ci + 1, star, star_ci + 1),
            None => false,
        }
    }
}

/// What `wildcard_match` answers.
pub open spec fn wildcard(pattern: Seq<char>, candidate: Seq<char>) -> bool {
    wildcard_walk(pattern, candidate, 0, 0, None, 0)
}

// ---------------------------------------------------------------------------
// The walk decides the meaning
// ---------------------------------------------------------------------------

spec fn rest_matches(pattern: Seq<char>, candidate: Seq<char>, pi: int, ci: int) -> bool {
    glob(pattern.skip(pi), candidate.skip(ci))
}

/// The number of characters that a pattern needs at least.
spec fn needed(pattern: Seq<char>) -> nat
    decreases pattern.len(),
{
    if pattern.len() == 0 {
        0
    } else if pattern[0] == '*' {
        needed(pattern.drop_first())
    } else {
        needed(pattern.drop_first()) + 1
    }
}

proof fn lemma_needed(pattern: Seq<char>, candidate: Seq<char>)
    requires
        glob(pattern, candidate),
    ensures
        needed(pattern) <= candidate.len(),
    decreases pattern.len(), candidate.len(),
{
    if pattern.len() > 0 {
        if pattern[0] == '*' {
            if glob(pattern.drop_first(), candidate) {
                lemma_needed(pattern.drop_first(), candidate);
            } else {
                lemma_needed(pattern, candidate.drop_first());
            }
        } else {
            lemma_needed(pattern.drop_first(), candidate.drop_first());
        }
    }
}

proof fn lemma_needed_skip(pattern: Seq<char>, i: int, j: int)
    requires
        0 <= i <= j <= pattern.len(),
        forall|k: int| i <= k < j ==> #[trigger] pattern[k] != '*',
    ensures
        needed(pattern.skip(i)) == (j - i) + needed(pattern.skip(j)),
    decreases j - i,
{
    if i < j {
        assert(pattern.skip(i)[0] == pattern[i]);
        assert(pattern.skip(i).drop_first() =~= pattern.skip(i + 1));
        lemma_needed_skip(pattern, i + 1, j);
    }
}

proof fn lemma_needed_zero(pattern: Seq<char>, i: int)
    requires
        0 <= i <= pattern.len(),
    ensures
        needed(pattern.skip(i)) == 0 <==> only_stars(pattern, i),
    decreases pattern.len() - i,
{
    if i < pattern.len() {
        assert(pattern.skip(i)[0] == pattern[i]);
        assert(pattern.skip(i).drop_first() =~= pattern.skip(i + 1));
        lemma_needed_zero(pattern, i + 1);
        if pattern[i] == '*' && only_stars(pattern, i + 1) {
            assert forall|k: int| i <= k < pattern.len() implies #[trigger] pattern[k] == '*' by {}
        }
    } else {
        assert(pattern.skip(i).len() == 0);
    }
}

/// A pattern describes the empty text just when it holds only stars.
proof fn lemma_glob_empty(pattern: Seq<char>)
    ensures
        glob(pattern, Seq::empty()) <==> needed(pattern) == 0,
    decreases pattern.len(),
{
    if pattern.len() > 0 {
        lemma_glob_empty(pattern.drop_first());
    }
}

/// A star that stands for a run may stand for a longer one.
proof fn lemma_star_grows(pattern: Seq<char>, candidate: Seq<char>, pi: int, i: int, j: int)
    requires
        0 <= pi < pattern.len(),
        pattern[pi] == '*',
        0 <= i <= j <= candidate.len(),
        rest_matches(pattern, candidate, pi, j),
    ensures
        rest_matches(pattern, candidate, pi, i),
    decreases j - i,
{
    if i < j {
        lemma_star_grows(pattern, candidate, pi, i + 1, j);
        assert(candidate.skip(i).drop_first() =~= candidate.skip(i + 1));
        assert(pattern.skip(pi)[0] == '*');
    }
}

/// Where a star matches, what follows it matches somewhere.
proof fn lemma_star_place(pattern: Seq<char>, candidate: Seq<char>, pi: int, i: int) -> (k: int)
    requires
        0 <= pi < pattern.len(),
        pattern[pi] == '*',
        0 <= i <= candidate.len(),
        rest_matches(pattern, candidate, pi, i),
    ensures
        i <= k <= candidate.len(),
        rest_matches(pattern, candidate, pi + 1, k),
    decreases candidate.len() - i,
{
    assert(pattern.skip(pi)[0] == '*');
    assert(pattern.skip(pi).drop_first() =~= pattern.skip(pi + 1));
    if rest_matches(pattern, candidate, pi + 1, i) {
        i
    } else {
        assert(candidate.skip(i).drop_first() =~= candidate.skip(i + 1));
        lemma_star_place(pattern, candidate, pi, i + 1)
    }
}

/// Characters that match one by one can be taken off in front.
proof fn lemma_peel(pattern: Seq<char>, candidate: Seq<char>, pi: int, ci: int, n: int)
    requires
        0 <= n,
        0 <= pi,
        pi + n <= pattern.len(),
        0 <= ci,
        ci + n <= candidate.len(),
        forall|k: int| pi <= k < pi + n ==> #[trigger] pattern[k] != '*',
        forall|k: int|
            pi <= k < pi + n ==> (#[trigger] pattern[k] == '?' || pattern[k] == candidate[ci + (k
                - pi)]),
    ensures
        rest_matches(pattern, candidate, pi, ci) == rest_matches(pattern, candidate, pi + n, ci + n),
    decreases n,
{
    if n > 0 {
        assert(pattern.skip(pi)[0] == pattern[pi]);
        assert(pattern.skip(pi).drop_first() =~= pattern.skip(pi + 1));
        assert(candidate.skip(ci)[0] == candidate[ci]);
        assert(candidate.skip(ci).drop_first() =~= candidate.skip(ci + 1));
        assert(pattern[pi] == '?' || pattern[pi] == candidate[ci + (pi - pi)]);
        assert forall|k: int| pi + 1 <= k < pi + 1 + (n - 1) implies (#[trigger] pattern[k] == '?'
            || pattern[k] == candidate[(ci + 1) + (k - (pi + 1))]) by {
            assert(pattern[k] == '?' || pattern[k] == candidate[ci + (k - pi)]);
        }
        lemma_peel(pattern, candidate, pi + 1, ci + 1, n - 1);
    }
}

/// A match goes on behind a run of pattern characters that are no stars.
proof fn lemma_peel_forward(pattern: Seq<char>, candidate: Seq<char>, pi: int, ci: int, n: int)
    requires
        0 <= n,
        0 <= pi,
        pi + n <= pattern.len(),
        0 <= ci <= candidate.len(),
        forall|k: int| pi <= k < pi + n ==> #[trigger] pattern[k] != '*',
        rest_matches(pattern, candidate, pi, ci),
    ensures
        ci + n <= candidate.len(),
        rest_matches(pattern, candidate, pi + n, ci + n),
    decreases n,
{
    if n > 0 {
        assert(pattern.skip(pi)[0] == pattern[pi]);
        assert(pattern.skip(pi).drop_first() =~= pattern.skip(pi + 1));
        assert(candidate.skip(ci).len() > 0);
        assert(candidate.skip(ci).drop_first() =~= candidate.skip(ci + 1));
        lemma_peel_forward(pattern, candidate, pi + 1, ci + 1, n - 1);
    }
}

/// The state of the walk: behind a star, the characters walked over since
/// match one by one.
spec fn walk_state(
    pattern: Seq<char>,
    candidate: Seq<char>,
    pi: int,
    ci: int,
    star: Option<int>,
    star_ci: int,
) -> bool {
    &&& 0 <= star_ci <= ci <= candidate.len()
    &&& 0 <= pi <= pattern.len()
    &&& star matches Some(s) ==> {
        &&& 0 <= s < pi
        &&& pattern[s] == '*'
        &&& pi - (s + 1) == ci - star_ci
        &&& forall|k: int| s + 1 <= k < pi ==> #[trigger] pattern[k] != '*'
        &&& forall|k: int|
            s + 1 <= k < pi ==> (#[trigger] pattern[k] == '?' || pattern[k] == candidate[star_ci + (
            k - (s + 1))])
    }
}

proof fn lemma_walk(
    pattern: Seq<char>,
    candidate: Seq<char>,
    pi: int,
    ci: int,
    star: Option<int>,
    star_ci: int,
)
    requires
        walk_state(pattern, candidate, pi, ci, star, star_ci),
        !candidate.contains('*'),
    ensures
        wildcard_walk(pattern, candidate, pi, ci, star, star_ci) == (match star {
            Some(s) => rest_matches(pattern, candidate, s, star_ci),
            None => rest_matches(pattern, candidate, pi, ci),
        }),
    decreases candidate.len() - star_ci, candidate.len() - ci, pattern.len() - pi,
{
    if let Some(s) = star {
        lemma_peel(pattern, candidate, s + 1, star_ci, pi - (s + 1));
        assert(pattern.skip(s)[0] == '*');
        assert(pattern.skip(s).drop_first() =~= pattern.skip(s + 1));
    }
    if pi < pattern.len() {
        assert(pattern.skip(pi)[0] == pattern[pi]);
        assert(pattern.skip(pi).drop_first() =~= pattern.skip(pi + 1));
    }
    if ci >= candidate.len() {
        assert(candidate.skip(ci) =~= Seq::<char>::empty());
        lemma_glob_empty(pattern.skip(pi));
        lemma_needed_zero(pattern, pi);
        if let Some(s) = star {
            if !only_stars(pattern, pi) && rest_matches(pattern, candidate, s, star_ci) {
                lemma_needed(pattern.skip(s), candidate.skip(star_ci));
                lemma_needed_skip(pattern, s + 1, pi);
            }
        }
    } else {
        assert(candidate[ci] != '*') by {
            assert(candidate.contains(candidate[ci]));
        }
        assert(candidate.skip(ci)[0] == candidate[ci]);
        assert(candidate.skip(ci).drop_first() =~= candidate.skip(ci + 1));
        if pi < pattern.len() && (pattern[pi] == '?' || pattern[pi] == candidate[ci]) {
            if let Some(s) = star {
                assert(candidate[star_ci + (pi - (s + 1))] == candidate[ci]);
            }
            lemma_walk(pattern, candidate, pi + 1, ci + 1, star, star_ci);
        } else if pi < pattern.len() && pattern[pi] == '*' {
            lemma_walk(pattern, candidate, pi + 1, ci, Some(pi), ci);
            if let Some(s) = star {
                if rest_matches(pattern, candidate, s, star_ci) {
                    let k = lemma_star_place(pattern, candidate, s, star_ci);
                    lemma_peel_forward(pattern, candidate, s + 1, k, pi - (s + 1));
                    lemma_star_grows(pattern, candidate, pi, ci, k + (pi - (s + 1)));
                }
            }
        } else {
            if let Some(s) = star {
                assert(candidate.skip(star_ci).drop_first() =~= candidate.skip(star_ci + 1));
                lemma_walk(pattern, candidate, s + 1, star_ci + 1, star, star_ci + 1);
            }
        }
    }
}

/// On a candidate without a star, the walk finds exactly the texts that the
/// pattern describes.
pub proof fn lemma_wildcard_is_glob(pattern: Seq<char>, candidate: Seq<char>)
    requires
        !candidate.contains('*'),
    ensures
        wildcard(pattern, candidate) == glob(pattern, candidate),
{
    lemma_walk(pattern, candidate, 0, 0, None, 0);
    assert(pattern.skip(0) =~= pattern);
    assert(candidate.skip(0) =~= candidate);
}

// ---------------------------------------------------------------------------
// Matching
// ---------------------------------------------------------------------------

/// Whether a candidate matches a pattern.
pub fn wildcard_match_chars(pattern: &[char], candidate: &[char]) -> (r: bool)
    ensures
        r == wildcard(pattern@, candidate@),
        !candidate@.contains('*') ==> r == glob(pattern@, candidate@),
{
    let mut pi: usize = 0;
    let mut ci: usize = 0;
    let mut star: Option<usize> = None;
    let mut star_ci: usize = 0;
    proof {
        if !candidate@.contains('*') {
            lemma_wildcard_is_glob(pattern@, candidate@);
        }
    }
    while ci < candidate.len()
        invariant
            star_ci <= ci <= candidate.len(),
            pi <= pattern.len(),
            star matches Some(s) ==> s < pattern.len(),
            wildcard(pattern@, candidate@) == wildcard_walk(
                pattern@,
                candidate@,
                pi as int,
                ci as int,
                match star {
                    Some(s) => Some(s as int),
                    None => None,
                },
                star_ci as int,
            ),
            !candidate@.contains('*') ==> wildcard(pattern@, candidate@) == glob(
                pattern@,
                candidate@,
            ),
        decreases candidate.len() - star_ci, candidate.len() - ci, pattern.len() - pi,
    {
        if pi < pattern.len() && (pattern[pi] == '?' || pattern[pi] == candidate[ci]) {
            pi += 1;
            ci += 1;
        } else if pi < pattern.len() && pattern[pi] == '*' {
            star = Some(pi);
            pi += 1;
            star_ci = ci;
        } else {
            match star {
                Some(s) => {
                    pi = s + 1;
                    star_ci += 1;
                    ci = star_ci;
                },
                None => {
                    return false;
                },
            }
        }
    }
    let ghost stop = pi;
    while pi < pattern.len() && pattern[pi] == '*'
        invariant
            stop <= pi <= pattern.len(),
            forall|k: int| stop <= k < pi ==> #[trigger] pattern@[k] == '*',
        decreases pattern.len() - pi,
    {
        pi += 1;
    }
    pi == pattern.len()
}

/// Whether a candidate matches a pattern.
pub fn wildcard_match(pattern: &str, candidate: &str) -> (r: bool)
    ensures
        r == wildcard(pattern@, candidate@),
        !candidate@.contains('*') ==> r == glob(pattern@, candidate@),
{
    let p = text::chars_of(pattern);
    let c = text::chars_of(candidate);
    wildcard_match_chars(p.as_slice(), c.as_slice())
}

// ---------------------------------------------------------------------------
// Compiled patterns
// ---------------------------------------------------------------------------

/// A pattern brought into the form in which it is matched fastest.
#[derive(Clone, Debug, PartialEq, Eq)]
pub enum CompiledPatternMatcher {
    Always,
    Exact(Vec<char>),
    Extension(Vec<char>),
    Prefix(Vec<char>),
    Suffix(Vec<char>),
    Contains(Vec<char>),
    Wildcard(Vec<char>),
}

/// The form of a pattern, over the characters that it is matched by.
pub enum PatternForm {
    Always,
    Exact(Seq<char>),
    Extension(Seq<char>),
    Prefix(Seq<char>),
    Suffix(Seq<char>),
    Contains(Seq<char>),
    Wildcard(Seq<char>),
}

impl View for CompiledPatternMatcher {
    type V = PatternForm;

    open spec fn view(&self) -> PatternForm {
        match self {
            CompiledPatternMatcher::Always => PatternForm::Always,
            CompiledPatternMatcher::Exact(v) => PatternForm::Exact(v@),
            CompiledPatternMatcher::Extension(v) => PatternForm::Extension(v@),
            CompiledPatternMatcher::Prefix(v) => PatternForm::Prefix(v@),
            CompiledPatternMatcher::Suffix(v) => PatternForm::Suffix(v@),
            CompiledPatternMatcher::Contains(v) => PatternForm::Contains(v@),
            CompiledPatternMatcher::Wildcard(v) => PatternForm::Wildcard(v@),
        }
    }
}

/// The number of stars in a pattern.
pub open spec fn star_count(pattern: Seq<char>) -> nat
    decreases pattern.len(),
{
    if pattern.len() == 0 {
        0
    } else if pattern.last() == '*' {
        star_count(pattern.drop_last()) + 1
    } else {
        star_count(pattern.drop_last())
    }
}

/// The form that a pattern is compiled to.
pub open spec fn compiled_form(pattern: Seq<char>) -> PatternForm {
    if pattern == seq!['*'] {
        PatternForm::Always
    } else if pattern.contains('?') {
        PatternForm::Wildcard(pattern)
    } else if star_count(pattern) == 0 {
        PatternForm::Exact(pattern)
    } else if star_count(pattern) == 1 && pattern.last() == '*' {
        PatternForm::Prefix(pattern.drop_last())
    } else if star_count(pattern) == 1 && pattern[0] == '*' && pattern.len() > 1 && pattern[1]
        == '.' {
        PatternForm::Extension(pattern.drop_first())
    } else if star_count(pattern) == 1 && pattern[0] == '*' {
        PatternForm::Suffix(pattern.drop_first())
    } else if star_count(pattern) == 2 && pattern[0] == '*' && pattern.last() == '*' {
        PatternForm::Contains(pattern.subrange(1, pattern.len() - 1))
    } else {
        PatternForm::Wildcard(pattern)
    }
}

/// The texts that a compiled pattern accepts.
pub open spec fn form_accepts(form: PatternForm, candidate: Seq<char>) -> bool {
    match form {
        PatternForm::Always => true,
        PatternForm::Exact(v) => candidate == v,
        PatternForm::Extension(v) => text::has_suffix(candidate, v),
        PatternForm::Suffix(v) => text::has_suffix(candidate, v),
        PatternForm::Prefix(v) => text::has_prefix(candidate, v),
        PatternForm::Contains(v) => text::has_infix(candidate, v),
        PatternForm::Wildcard(v) => wildcard(v, candidate),
    }
}

fn count_stars(pattern: &[char]) -> (r: usize)
    ensures
        r == star_count(pattern@),
        r <= pattern.len(),
{
    let mut count: usize = 0;
    let mut i: usize = 0;
    while i < pattern.len()
        invariant
            i <= pattern.len(),
            count == star_count(pattern@.take(i as int)),
            count <= i,
        decreases pattern.len() - i,
    {
        proof {
            assert(pattern@.take(i + 1).drop_last() =~= pattern@.take(i as int));
            assert(pattern@.take(i + 1).last() == pattern@[i as int]);
        }
        if pattern[i] == '*' {
            count += 1;
        }
        i += 1;
    }
    proof {
        assert(pattern@.take(pattern@.len() as int) =~= pattern@);
    }
    count
}

impl CompiledPatternMatcher {
    /// Brings a pattern into its form.
    pub fn compile(pattern: &str) -> (r: CompiledPatternMatcher)
        ensures
            r@ == compiled_form(pattern@),
    {
        let chars = text::chars_of(pattern);
        let n: usize = chars.len();
        if n == 1 && chars[0] == '*' {
            proof {
                assert(pattern@ =~= seq!['*']);
            }
            return CompiledPatternMatcher::Always;
        }
        proof {
            assert(pattern@ != seq!['*']) by {
                if pattern@ == seq!['*'] {
                    assert(pattern@.len() == 1 && pattern@[0] == '*');
                }
            }
        }
        if text::contains_char(chars.as_slice(), '?') {
            return CompiledPatternMatcher::Wildcard(chars);
        }
        let stars: usize = count_stars(chars.as_slice());
        if stars == 0 {
            return CompiledPatternMatcher::Exact(chars);
        }
        if stars == 1 && chars[n - 1] == '*' {
            let body = vstd::slice::slice_to_vec(
                vstd::slice::slice_subrange(chars.as_slice(), 0, n - 1),
            );
            proof {
                assert(body@ =~= pattern@.drop_last());
            }
            return CompiledPatternMatcher::Prefix(body);
        }
        if stars == 1 && chars[0] == '*' {
            let body = vstd::slice::slice_to_vec(
                vstd::slice::slice_subrange(chars.as_slice(), 1, n),
            );
            proof {
                assert(body@ =~= pattern@.drop_first());
            }
            if n > 1 && chars[1] == '.' {
                return CompiledPatternMatcher::Extension(body);
            }
            return CompiledPatternMatcher::Suffix(body);
        }
        if stars == 2 && chars[0] == '*' && chars[n - 1] == '*' {
            let body = vstd::slice::slice_to_vec(
                vstd::slice::slice_subrange(chars.as_slice(), 1, n - 1),
            );
            return CompiledPatternMatcher::Contains(body);
        }
        CompiledPatternMatcher::Wildcard(chars)
    }

    /// Whether a candidate matches.
    pub fn matches(&self, candidate: &[char]) -> (r: bool)
        ensures
            r == form_accepts(self@, candidate@),
    {
        match self {
            CompiledPatternMatcher::Always => true,
            CompiledPatternMatcher::Exact(v) => text::same_chars(candidate, v.as_slice()),
            CompiledPatternMatcher::Extension(v) => text::finishes_with(candidate, v.as_slice()),
            CompiledPatternMatcher::Suffix(v) => text::finishes_with(candidate, v.as_slice()),
            CompiledPatternMatcher::Prefix(v) => text::begins_with(candidate, v.as_slice()),
            CompiledPatternMatcher::Contains(v) => text::contains_chars(candidate, v.as_slice()),
            CompiledPatternMatcher::Wildcard(v) => wildcard_match_chars(v.as_slice(), candidate),
        }
    }
}

spec fn plain(pattern: Seq<char>) -> bool {
    !pattern.contains('*') && !pattern.contains('?')
}

proof fn lemma_star_count(pattern: Seq<char>)
    ensures
        star_count(pattern) == 0 <==> !pattern.contains('*'),
    decreases pattern.len(),
{
    if pattern.len() > 0 {
        lemma_star_count(pattern.drop_last());
        assert forall|c: char| pattern.contains(c) <==> (pattern.drop_last().contains(c)
            || pattern.last() == c) by {
            if pattern.drop_last().contains(c) {
                let i = choose|i: int|
                    0 <= i < pattern.drop_last().len() && pattern.drop_last()[i] == c;
                assert(pattern[i] == c);
            }
            if pattern.contains(c) && pattern.last() != c {
                let i = choose|i: int| 0 <= i < pattern.len() && pattern[i] == c;
                assert(pattern.drop_last()[i] == c);
            }
            if pattern.last() == c {
                assert(pattern[pattern.len() - 1] == c);
            }
        }
    }
}

proof fn lemma_star_count_first(pattern: Seq<char>)
    requires
        pattern.len() > 0,
    ensures
        star_count(pattern) == star_count(pattern.drop_first()) + (if pattern[0] == '*' {
            1nat
        } else {
            0nat
        }),
    decreases pattern.len(),
{
    if pattern.len() > 1 {
        lemma_star_count_first(pattern.drop_last());
        assert(pattern.drop_last().drop_first() =~= pattern.drop_first().drop_last());
    } else {
        assert(pattern.drop_last() =~= Seq::<char>::empty());
        assert(pattern.drop_first() =~= Seq::<char>::empty());
    }
}

proof fn lemma_star_matches_all(candidate: Seq<char>)
    ensures
        glob(seq!['*'], candidate),
    decreases candidate.len(),
{
    assert(seq!['*'].drop_first() =~= Seq::<char>::empty());
    assert(glob(Seq::<char>::empty(), candidate) == (candidate.len() == 0));
    if candidate.len() > 0 {
        lemma_star_matches_all(candidate.drop_first());
    }
}

proof fn lemma_plain_tail(pattern: Seq<char>)
    requires
        plain(pattern),
        pattern.len() > 0,
    ensures
        plain(pattern.drop_first()),
        pattern[0] != '*',
        pattern[0] != '?',
{
    assert(pattern.contains(pattern[0]));
    assert forall|c: char| pattern.drop_first().contains(c) implies pattern.contains(c) by {
        let i = choose|i: int| 0 <= i < pattern.drop_first().len() && pattern.drop_first()[i] == c;
        assert(pattern[i + 1] == c);
    }
}

proof fn lemma_glob_exact(pattern: Seq<char>, candidate: Seq<char>)
    requires
        plain(pattern),
    ensures
        glob(pattern, candidate) <==> candidate == pattern,
    decreases pattern.len(),
{
    if pattern.len() > 0 {
        lemma_plain_tail(pattern);
        if candidate.len() > 0 {
            lemma_glob_exact(pattern.drop_first(), candidate.drop_first());
            if pattern[0] == candidate[0] && pattern.drop_first() == candidate.drop_first() {
                assert(pattern =~= seq![pattern[0]] + pattern.drop_first());
                assert(candidate =~= seq![candidate[0]] + candidate.drop_first());
            }
        }
    } else {
        assert(candidate.len() == 0 ==> candidate =~= pattern);
    }
}

proof fn lemma_glob_prefix(body: Seq<char>, candidate: Seq<char>)
    requires
        plain(body),
    ensures
        glob(body.push('*'), candidate) <==> text::has_prefix(candidate, body),
    decreases body.len(),
{
    let pattern = body.push('*');
    if body.len() == 0 {
        assert(pattern =~= seq!['*']);
        lemma_star_matches_all(candidate);
        assert(candidate.subrange(0, 0) =~= body);
    } else {
        lemma_plain_tail(body);
        assert(pattern.drop_first() =~= body.drop_first().push('*'));
        assert(pattern[0] == body[0]);
        if candidate.len() > 0 {
            lemma_glob_prefix(body.drop_first(), candidate.drop_first());
            let tail = candidate.drop_first();
            if text::has_prefix(candidate, body) {
                assert(candidate[0] == candidate.subrange(0, body.len() as int)[0]);
                assert(tail.subrange(0, body.len() - 1) =~= candidate.subrange(
                    0,
                    body.len() as int,
                ).drop_first());
            }
            if candidate[0] == body[0] && text::has_prefix(tail, body.drop_first()) {
                assert(candidate.subrange(0, body.len() as int) =~= seq![candidate[0]]
                    + tail.subrange(0, body.len() - 1));
                assert(body =~= seq![body[0]] + body.drop_first());
            }
        }
    }
}

proof fn lemma_glob_suffix(body: Seq<char>, candidate: Seq<char>)
    requires
        plain(body),
    ensures
        glob(seq!['*'] + body, candidate) <==> text::has_suffix(candidate, body),
    decreases candidate.len(),
{
    let pattern = seq!['*'] + body;
    assert(pattern.drop_first() =~= body);
    assert(pattern[0] == '*');
    lemma_glob_exact(body, candidate);
    if candidate == body {
        assert(candidate.subrange(0, candidate.len() as int) =~= body);
    }
    if candidate.len() > 0 {
        let tail = candidate.drop_first();
        lemma_glob_suffix(body, tail);
        if tail.len() >= body.len() {
            assert(tail.subrange(tail.len() - body.len(), tail.len() as int) =~= candidate.subrange(
                candidate.len() - body.len(),
                candidate.len() as int,
            ));
        } else if candidate.len() == body.len() {
            assert(candidate.subrange(0, candidate.len() as int) =~= candidate);
        }
    } else {
        assert(text::has_suffix(candidate, body) ==> body =~= candidate);
    }
}

proof fn lemma_glob_contains(body: Seq<char>, candidate: Seq<char>)
    requires
        plain(body),
    ensures
        glob(seq!['*'] + body.push('*'), candidate) <==> text::has_infix(candidate, body),
    decreases candidate.len(),
{
    let pattern = seq!['*'] + body.push('*');
    assert(pattern.drop_first() =~= body.push('*'));
    assert(pattern[0] == '*');
    lemma_glob_prefix(body, candidate);
    if candidate.len() > 0 {
        let tail = candidate.drop_first();
        lemma_glob_contains(body, tail);
        if text::has_infix(tail, body) {
            let i = choose|i: int| text::occurs_at(tail, body, i);
            assert(candidate.subrange(i + 1, i + 1 + body.len()) =~= tail.subrange(
                i,
                i + body.len(),
            ));
            assert(text::occurs_at(candidate, body, i + 1));
        }
        if text::has_infix(candidate, body) && !text::has_prefix(candidate, body) {
            let i = choose|i: int| text::occurs_at(candidate, body, i);
            assert(tail.subrange(i - 1, i - 1 + body.len()) =~= candidate.subrange(
                i,
                i + body.len(),
            ));
            assert(text::occurs_at(tail, body, i - 1));
        }
    } else {
        if text::has_infix(candidate, body) {
            let i = choose|i: int| text::occurs_at(candidate, body, i);
            assert(text::has_prefix(candidate, body));
        }
    }
}

/// A compiled pattern accepts exactly the texts without a star that the
/// pattern describes.
pub proof fn lemma_compiled_is_glob(pattern: Seq<char>, candidate: Seq<char>)
    requires
        !candidate.contains('*'),
    ensures
        form_accepts(compiled_form(pattern), candidate) == glob(pattern, candidate),
{
    lemma_star_count(pattern);
    match compiled_form(pattern) {
        PatternForm::Always => {
            lemma_star_matches_all(candidate);
        },
        PatternForm::Exact(_) => {
            lemma_glob_exact(pattern, candidate);
        },
        PatternForm::Prefix(v) => {
            lemma_star_count(v);
            assert(!v.contains('?')) by {
                if v.contains('?') {
                    let i = choose|i: int| 0 <= i < v.len() && v[i] == '?';
                    assert(pattern[i] == '?');
                }
            }
            assert(pattern =~= v.push('*'));
            lemma_glob_prefix(v, candidate);
        },
        PatternForm::Extension(v) => {
            lemma_suffix_form(pattern);
            lemma_glob_suffix(v, candidate);
        },
        PatternForm::Suffix(v) => {
            lemma_suffix_form(pattern);
            lemma_glob_suffix(v, candidate);
        },
        PatternForm::Contains(v) => {
            let tail = pattern.drop_first();
            lemma_star_count_first(pattern);
            assert(tail.drop_last() =~= v);
            assert(tail.last() == '*') by {
                assert(tail.len() > 0) by {
                    if pattern.len() == 1 {
                        assert(pattern.drop_last() =~= Seq::<char>::empty());
                    }
                }
            }
            lemma_star_count(v);
            assert(!v.contains('?')) by {
                if v.contains('?') {
                    let i = choose|i: int| 0 <= i < v.len() && v[i] == '?';
                    assert(pattern[i + 1] == '?');
                }
            }
            assert(pattern =~= seq!['*'] + v.push('*'));
            lemma_glob_contains(v, candidate);
        },
        PatternForm::Wildcard(_) => {
            lemma_wildcard_is_glob(pattern, candidate);
        },
    }
}

proof fn lemma_suffix_form(pattern: Seq<char>)
    requires
        pattern.len() > 0,
        pattern[0] == '*',
        star_count(pattern) == 1,
        !pattern.contains('?'),
    ensures
        plain(pattern.drop_first()),
        pattern == seq!['*'] + pattern.drop_first(),
{
    let v = pattern.drop_first();
    lemma_star_count_first(pattern);
    lemma_star_count(v);
    assert(!v.contains('?')) by {
        if v.contains('?') {
            let i = choose|i: int| 0 <= i < v.len() && v[i] == '?';
            assert(pattern[i + 1] == '?');
        }
    }
    assert(pattern =~= seq!['*'] + v);
}

} // verus!
