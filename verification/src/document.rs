//! Texts of lines: cutting them up, and exchanging the lines that are known while
//! everything else stays as it is.

use crate::places;
use crate::text;
use vstd::prelude::*;

verus! {

// ---------------------------------------------------------------------------
// Cutting
// ---------------------------------------------------------------------------

/// The first place from `from` on at which `needle` stands in `hay`; `-1` where
/// there is none.
pub open spec fn place_in(hay: Seq<char>, needle: Seq<char>, from: int) -> int
    decreases hay.len() + 1 - from,
{
    if from < 0 || from + needle.len() > hay.len() {
        -1
    } else if text::occurs_at(hay, needle, from) {
        from
    } else {
        place_in(hay, needle, from + 1)
    }
}

/// What stands in front of and behind the first occurrence of a separator.
pub open spec fn cut(s: Seq<char>, separator: Seq<char>) -> Option<(Seq<char>, Seq<char>)> {
    let p = place_in(s, separator, 0);
    if p < 0 {
        None
    } else {
        Some((s.take(p), s.skip(p + separator.len())))
    }
}

/// A first place is the first place.
pub proof fn lemma_place_is(hay: Seq<char>, needle: Seq<char>, from: int, i: int)
    requires
        0 <= from <= i,
        text::occurs_at(hay, needle, i),
        forall|k: int| from <= k < i ==> !text::occurs_at(hay, needle, k),
    ensures
        place_in(hay, needle, from) == i,
    decreases i - from,
{
    if from < i {
        lemma_place_is(hay, needle, from + 1, i);
    }
}

/// What stands nowhere has no first place.
pub proof fn lemma_place_none(hay: Seq<char>, needle: Seq<char>, from: int)
    requires
        0 <= from,
        forall|k: int| from <= k ==> !text::occurs_at(hay, needle, k),
    ensures
        place_in(hay, needle, from) == -1,
    decreases hay.len() + 1 - from,
{
    if from + needle.len() <= hay.len() {
        lemma_place_none(hay, needle, from + 1);
    }
}

/// Cuts at the first occurrence of a separator.
pub fn cut_chars<'a>(s: &'a [char], separator: &str) -> (r: Option<(&'a [char], &'a [char])>)
    ensures
        match cut(s@, separator@) {
            None => r is None,
            Some((front, back)) => r matches Some((a, b)) && a@ == front && b@ == back,
        },
{
    let needle = text::chars_of(separator);
    match text::find_chars(s, needle.as_slice(), 0) {
        Some(i) => {
            proof {
                lemma_place_is(s@, separator@, 0, i as int);
                assert(s@.subrange(0, i as int) =~= s@.take(i as int));
                assert(s@.subrange(i + separator@.len(), s@.len() as int) =~= s@.skip(
                    i + separator@.len(),
                ));
            }
            let size: usize = s.len();
            assert(i + needle@.len() <= size);
            let front = vstd::slice::slice_subrange(s, 0, i);
            let back = vstd::slice::slice_subrange(s, i + needle.len(), s.len());
            Some((front, back))
        },
        None => {
            proof {
                lemma_place_none(s@, separator@, 0);
            }
            None
        },
    }
}

/// Without the characters of a set at the beginning.
pub open spec fn stripped_start(s: Seq<char>, set: Seq<char>) -> Seq<char>
    decreases s.len(),
{
    if s.len() > 0 && set.contains(s[0]) {
        stripped_start(s.drop_first(), set)
    } else {
        s
    }
}

/// Without the characters of a set at the end.
pub open spec fn stripped_end(s: Seq<char>, set: Seq<char>) -> Seq<char>
    decreases s.len(),
{
    if s.len() > 0 && set.contains(s.last()) {
        stripped_end(s.drop_last(), set)
    } else {
        s
    }
}

/// Without the characters of a set on either side.
pub open spec fn stripped(s: Seq<char>, set: Seq<char>) -> Seq<char> {
    stripped_end(stripped_start(s, set), set)
}

/// Strips characters of a set from the beginning.
pub fn strip_start<'a>(s: &'a [char], set: &[char]) -> (r: &'a [char])
    ensures
        r@ == stripped_start(s@, set@),
{
    let mut start: usize = 0;
    proof {
        assert(s@.subrange(0, s@.len() as int) =~= s@);
    }
    while start < s.len() && text::contains_char(set, s[start])
        invariant
            start <= s.len(),
            stripped_start(s@, set@) == stripped_start(
                s@.subrange(start as int, s@.len() as int),
                set@,
            ),
        decreases s.len() - start,
    {
        proof {
            assert(s@.subrange(start as int, s@.len() as int).drop_first() =~= s@.subrange(
                start + 1,
                s@.len() as int,
            ));
        }
        start += 1;
    }
    vstd::slice::slice_subrange(s, start, s.len())
}

/// Strips characters of a set from the end.
pub fn strip_end<'a>(s: &'a [char], set: &[char]) -> (r: &'a [char])
    ensures
        r@ == stripped_end(s@, set@),
{
    let mut end: usize = s.len();
    proof {
        assert(s@.subrange(0, s@.len() as int) =~= s@);
    }
    while end > 0 && text::contains_char(set, s[end - 1])
        invariant
            end <= s.len(),
            stripped_end(s@, set@) == stripped_end(s@.subrange(0, end as int), set@),
        decreases end,
    {
        proof {
            assert(s@.subrange(0, end as int).drop_last() =~= s@.subrange(0, end - 1));
        }
        end -= 1;
    }
    vstd::slice::slice_subrange(s, 0, end)
}

/// Strips characters of a set from both sides.
pub fn strip_both<'a>(s: &'a [char], set: &[char]) -> (r: &'a [char])
    ensures
        r@ == stripped(s@, set@),
{
    strip_end(strip_start(s, set), set)
}

// ---------------------------------------------------------------------------
// Known lines
// ---------------------------------------------------------------------------

/// The line break that a text uses.
pub open spec fn newline_of(s: Seq<char>) -> Seq<char> {
    if text::has_infix(s, "\r\n"@) {
        "\r\n"@
    } else {
        "\n"@
    }
}

/// A text that ends with a line break.
pub open spec fn ends_a_line(s: Seq<char>) -> bool {
    s.len() > 0 && (s.last() == '\r' || s.last() == '\n')
}

/// Lines put together with the line breaks of a text, and a last line break where
/// the text has one.
pub open spec fn put_together(all: Seq<Seq<char>>, like: Seq<char>) -> Seq<char> {
    let joined = text::join(all, newline_of(like));
    if ends_a_line(like) {
        joined + newline_of(like)
    } else {
        joined
    }
}

/// Puts lines together with the line breaks of a text.
pub fn join_like(all: &[String], like: &str) -> (r: String)
    ensures
        r@ == put_together(text::texts(all@), like@),
{
    let chars = text::chars_of(like);
    let crlf = text::chars_of("\r\n");
    let newline = if text::contains_chars(chars.as_slice(), crlf.as_slice()) {
        "\r\n"
    } else {
        "\n"
    };
    let mut out = text::join_texts(all, newline);
    if chars.len() > 0 && (chars[chars.len() - 1] == '\r' || chars[chars.len() - 1] == '\n') {
        out.append(newline);
    }
    out
}

/// Whether any of the first `n` lines is known.
pub open spec fn any_known(known: Seq<bool>, n: int) -> bool {
    exists|i: int| 0 <= i < n && #[trigger] known[i]
}

/// The first `n` lines with the known ones taken out and the replacement put where
/// the first of them was.
pub open spec fn exchanged(
    all: Seq<Seq<char>>,
    known: Seq<bool>,
    replacement: Seq<Seq<char>>,
    n: int,
) -> Seq<Seq<char>>
    decreases n,
{
    if n <= 0 {
        Seq::empty()
    } else {
        let before = exchanged(all, known, replacement, n - 1);
        if !known[n - 1] {
            before.push(all[n - 1])
        } else if any_known(known, n - 1) {
            before
        } else {
            before + replacement
        }
    }
}

/// A text with its known lines exchanged; where none is known, the replacement
/// comes last.
pub open spec fn merged(s: Seq<char>, known: Seq<bool>, replacement: Seq<Seq<char>>) -> Seq<char> {
    let all = text::lines(s);
    let n = all.len() as int;
    let kept = exchanged(all, known, replacement, n);
    put_together(
        if any_known(known, n) {
            kept
        } else {
            kept + replacement
        },
        s,
    )
}

/// Appends copies of texts.
pub fn append_texts(out: &mut Vec<String>, more: &[String])
    ensures
        final(out)@ == old(out)@ + more@,
        text::texts(final(out)@) == text::texts(old(out)@) + text::texts(more@),
{
    let ghost start = out@;
    let mut i: usize = 0;
    while i < more.len()
        invariant
            i <= more.len(),
            out@ == start + more@.take(i as int),
        decreases more.len() - i,
    {
        out.push(more[i].clone());
        i += 1;
        proof {
            assert(out@ =~= start + more@.take(i as int));
        }
    }
    proof {
        assert(out@ =~= start + more@);
        assert(text::texts(out@) =~= text::texts(start) + text::texts(more@));
    }
}

/// Exchanges the known lines of a text.
pub fn merge_known_lines(existing: &str, known: &[bool], replacement: &[String]) -> (r: String)
    requires
        known@.len() == text::lines(existing@).len(),
    ensures
        r@ == merged(existing@, known@, text::texts(replacement@)),
{
    let all = text::split_lines(existing);
    let ghost whole = text::texts(all@);
    let ghost put = text::texts(replacement@);
    let mut out: Vec<String> = Vec::new();
    let mut inserted: bool = false;
    let mut i: usize = 0;
    proof {
        assert(text::texts(out@) =~= Seq::<Seq<char>>::empty());
    }
    while i < all.len()
        invariant
            i <= all.len(),
            known@.len() == all@.len(),
            whole == text::texts(all@),
            put == text::texts(replacement@),
            text::texts(out@) == exchanged(whole, known@, put, i as int),
            inserted == any_known(known@, i as int),
        decreases all.len() - i,
    {
        let ghost before = out@;
        if known[i] {
            if !inserted {
                append_texts(&mut out, replacement);
                inserted = true;
            }
            proof {
                assert(known@[i as int]);
            }
        } else {
            out.push(all[i].clone());
            proof {
                assert(text::texts(out@) =~= text::texts(before).push(whole[i as int]));
                assert(any_known(known@, i as int) == any_known(known@, i + 1)) by {
                    if any_known(known@, i + 1) {
                        let k = choose|k: int| 0 <= k < i + 1 && #[trigger] known@[k];
                        assert(k < i);
                    }
                }
            }
        }
        i += 1;
    }
    if !inserted {
        append_texts(&mut out, replacement);
    }
    join_like(out.as_slice(), existing)
}

/// The lines that are not known.
pub open spec fn unknown_lines(all: Seq<Seq<char>>, known: Seq<bool>, n: int) -> Seq<Seq<char>>
    decreases n,
{
    if n <= 0 {
        Seq::empty()
    } else {
        let before = unknown_lines(all, known, n - 1);
        if known[n - 1] {
            before
        } else {
            before.push(all[n - 1])
        }
    }
}

/// Exchanging known lines keeps every other line, in order: the lines up to the
/// place of the replacement and those behind it are the unknown lines.
pub proof fn lemma_unknown_lines_stay(
    all: Seq<Seq<char>>,
    known: Seq<bool>,
    replacement: Seq<Seq<char>>,
    n: int,
)
    requires
        0 <= n <= all.len(),
        known.len() == all.len(),
    ensures
        exists|front: Seq<Seq<char>>, back: Seq<Seq<char>>|
            #![trigger front + back]
            front + back == unknown_lines(all, known, n) && exchanged(all, known, replacement, n)
                == (if any_known(known, n) {
                front + replacement + back
            } else {
                front + back
            }),
    decreases n,
{
    if n == 0 {
        let e = Seq::<Seq<char>>::empty();
        assert(e + e == unknown_lines(all, known, 0));
    } else {
        lemma_unknown_lines_stay(all, known, replacement, n - 1);
        let (front, back) = choose|front: Seq<Seq<char>>, back: Seq<Seq<char>>|
            #![trigger front + back]
            front + back == unknown_lines(all, known, n - 1) && exchanged(
                all,
                known,
                replacement,
                n - 1,
            ) == (if any_known(known, n - 1) {
                front + replacement + back
            } else {
                front + back
            });
        let line = all[n - 1];
        if known[n - 1] {
            if any_known(known, n - 1) {
                assert(any_known(known, n)) by {
                    let k = choose|k: int| 0 <= k < n - 1 && #[trigger] known[k];
                    assert(known[k]);
                }
                assert(front + back == unknown_lines(all, known, n));
            } else {
                let whole = front + back;
                let e = Seq::<Seq<char>>::empty();
                assert(whole + e =~= whole);
                assert(whole + e == unknown_lines(all, known, n));
                assert(whole + replacement + e =~= whole + replacement);
            }
        } else {
            let longer = back.push(line);
            assert(front + longer =~= (front + back).push(line));
            assert(any_known(known, n) == any_known(known, n - 1)) by {
                if any_known(known, n) {
                    let k = choose|k: int| 0 <= k < n && #[trigger] known[k];
                    assert(k < n - 1);
                }
                if any_known(known, n - 1) {
                    let k = choose|k: int| 0 <= k < n - 1 && #[trigger] known[k];
                    assert(known[k]);
                }
            }
            if any_known(known, n - 1) {
                assert((front + replacement + back).push(line) =~= front + replacement + longer);
            }
        }
    }
}

/// Whether characters make up a text.
pub fn is_text(s: &[char], other: &str) -> (r: bool)
    ensures
        r == (s@ == other@),
{
    let chars = text::chars_of(other);
    text::same_chars(s, chars.as_slice())
}

/// A key and a value on either side of a sign.
pub open spec fn setting_of(part: Seq<char>) -> Option<(Seq<char>, Seq<char>)> {
    match cut(part, "="@) {
        None => None,
        Some((key, value)) => Some((text::trimmed(key), value)),
    }
}

/// The places of the first `n` marks that are set.
pub open spec fn marked(marks: Seq<bool>, n: int) -> Seq<int>
    decreases n,
{
    if n <= 0 {
        Seq::empty()
    } else if marks[n - 1] {
        marked(marks, n - 1).push(n - 1)
    } else {
        marked(marks, n - 1)
    }
}


// ---------------------------------------------------------------------------
// Exchanged lines are read back
// ---------------------------------------------------------------------------

/// The lines among the first `n` that pass a test.
pub open spec fn picked(all: Seq<Seq<char>>, test: spec_fn(Seq<char>) -> bool, n: int) -> Seq<Seq<char>>
    decreases n,
{
    if n <= 0 {
        Seq::empty()
    } else if test(all[n - 1]) {
        picked(all, test, n - 1).push(all[n - 1])
    } else {
        picked(all, test, n - 1)
    }
}

proof fn lemma_picked_front(
    a: Seq<Seq<char>>,
    b: Seq<Seq<char>>,
    test: spec_fn(Seq<char>) -> bool,
    n: int,
)
    requires
        0 <= n <= a.len(),
        n <= b.len(),
        forall|i: int| 0 <= i < n ==> #[trigger] a[i] == b[i],
    ensures
        picked(a, test, n) == picked(b, test, n),
    decreases n,
{
    if n > 0 {
        lemma_picked_front(a, b, test, n - 1);
        assert(a[n - 1] == b[n - 1]);
    }
}

proof fn lemma_picked_add(
    a: Seq<Seq<char>>,
    b: Seq<Seq<char>>,
    test: spec_fn(Seq<char>) -> bool,
    n: int,
)
    requires
        0 <= n <= b.len(),
    ensures
        picked(a + b, test, a.len() + n) == picked(a, test, a.len() as int) + picked(b, test, n),
    decreases n,
{
    let front = picked(a, test, a.len() as int);
    if n == 0 {
        lemma_picked_front(a + b, a, test, a.len() as int);
        assert(front + picked(b, test, 0) =~= front);
    } else {
        lemma_picked_add(a, b, test, n - 1);
        assert((a + b)[a.len() + n - 1] == b[n - 1]);
        if test(b[n - 1]) {
            assert((front + picked(b, test, n - 1)).push(b[n - 1]) =~= front + picked(b, test, n));
        }
    }
}

proof fn lemma_picked_all(a: Seq<Seq<char>>, test: spec_fn(Seq<char>) -> bool, n: int)
    requires
        0 <= n <= a.len(),
        forall|i: int| 0 <= i < a.len() ==> test(#[trigger] a[i]),
    ensures
        picked(a, test, n) == a.take(n),
    decreases n,
{
    if n > 0 {
        lemma_picked_all(a, test, n - 1);
        assert(test(a[n - 1]));
        assert(a.take(n) =~= a.take(n - 1).push(a[n - 1]));
    } else {
        assert(a.take(0) =~= Seq::<Seq<char>>::empty());
    }
}

proof fn lemma_picked_none(a: Seq<Seq<char>>, test: spec_fn(Seq<char>) -> bool, n: int)
    requires
        0 <= n <= a.len(),
        forall|i: int| 0 <= i < a.len() ==> !test(#[trigger] a[i]),
    ensures
        picked(a, test, n) == Seq::<Seq<char>>::empty(),
    decreases n,
{
    if n > 0 {
        lemma_picked_none(a, test, n - 1);
        assert(!test(a[n - 1]));
    }
}

/// What holds of every line that is not known holds of the unknown lines.
proof fn lemma_unknown_lines_hold(
    all: Seq<Seq<char>>,
    known: Seq<bool>,
    holds: spec_fn(Seq<char>) -> bool,
    n: int,
)
    requires
        0 <= n <= all.len(),
        known.len() == all.len(),
        forall|i: int| 0 <= i < all.len() && !known[i] ==> holds(#[trigger] all[i]),
    ensures
        forall|i: int|
            0 <= i < unknown_lines(all, known, n).len() ==> holds(
                #[trigger] unknown_lines(all, known, n)[i],
            ),
    decreases n,
{
    if n > 0 {
        lemma_unknown_lines_hold(all, known, holds, n - 1);
        let before = unknown_lines(all, known, n - 1);
        let now = unknown_lines(all, known, n);
        assert forall|i: int| 0 <= i < now.len() implies holds(#[trigger] now[i]) by {
            if i < before.len() {
                assert(now[i] == before[i]);
            } else {
                assert(holds(all[n - 1]));
            }
        }
    }
}

/// A line that a text with the given line breaks can hold as it is.
pub open spec fn is_kept_in(line: Seq<char>, like: Seq<char>) -> bool {
    !line.contains('\n') && (newline_of(like) == "\r\n"@ || text::is_plain_line(line))
}

/// Lines that are put together are read back, but for empty ones at the end.
proof fn lemma_put_together_is_read(all: Seq<Seq<char>>, like: Seq<char>)
    requires
        forall|i: int| 0 <= i < all.len() ==> is_kept_in(#[trigger] all[i], like),
    ensures
        ({
            let found = text::lines(put_together(all, like));
            ||| found == all
            ||| all.len() > 0 && all.last().len() == 0 && found == all.drop_last()
            ||| all.len() == 0 && found == seq![Seq::<char>::empty()]
        }),
{
    let returned = newline_of(like) == "\r\n"@;
    let e = Seq::<char>::empty();
    reveal_strlit("\r\n");
    reveal_strlit("\n");
    assert("\r\n"@.len() != "\n"@.len());
    assert forall|i: int| 0 <= i < all.len() implies !(#[trigger] all[i]).contains('\n') by {
        assert(is_kept_in(all[i], like));
    }
    if !returned {
        assert forall|i: int| 0 <= i < all.len() implies text::is_plain_line(#[trigger] all[i]) by {
            assert(is_kept_in(all[i], like));
        }
    }
    if all.len() == 0 {
        let one = seq![e];
        assert(text::join(all, newline_of(like)) =~= e);
        assert(text::join(one, newline_of(like)) =~= e);
        if ends_a_line(like) {
            if returned {
                text::lemma_returned_lines_round_trip(one);
            } else {
                text::lemma_joined_lines(one);
                text::lemma_lines_round_trip(one);
            }
        } else {
            assert(text::terminated(all) =~= e);
            text::lemma_lines_round_trip(all);
        }
    } else if ends_a_line(like) {
        if returned {
            text::lemma_returned_lines_round_trip(all);
        } else {
            text::lemma_joined_lines(all);
            text::lemma_lines_round_trip(all);
        }
    } else {
        text::lemma_joined_lines_round_trip(all, returned);
    }
}

/// After an exchange of the lines that pass a test for others that pass it, the lines of
/// the text that pass it are those others, in their order.
pub proof fn lemma_exchanged_lines_are_read(
    s: Seq<char>,
    known: Seq<bool>,
    replacement: Seq<Seq<char>>,
    test: spec_fn(Seq<char>) -> bool,
)
    requires
        known.len() == text::lines(s).len(),
        forall|i: int| 0 <= i < known.len() ==> #[trigger] known[i] == test(text::lines(s)[i]),
        !test(Seq::empty()),
        forall|i: int|
            0 <= i < text::lines(s).len() ==> is_kept_in(#[trigger] text::lines(s)[i], s),
        forall|i: int|
            0 <= i < replacement.len() ==> test(#[trigger] replacement[i]) && is_kept_in(
                replacement[i],
                s,
            ),
    ensures
        picked(
            text::lines(merged(s, known, replacement)),
            test,
            text::lines(merged(s, known, replacement)).len() as int,
        ) == replacement,
{
    let all = text::lines(s);
    let n = all.len() as int;
    let kept = exchanged(all, known, replacement, n);
    let whole = if any_known(known, n) {
        kept
    } else {
        kept + replacement
    };
    let e = Seq::<Seq<char>>::empty();
    lemma_unknown_lines_stay(all, known, replacement, n);
    let (front, back) = choose|front: Seq<Seq<char>>, back: Seq<Seq<char>>|
        #![trigger front + back]
        front + back == unknown_lines(all, known, n) && exchanged(all, known, replacement, n) == (
        if any_known(known, n) {
            front + replacement + back
        } else {
            front + back
        });
    let holds = |line: Seq<char>| !test(line) && is_kept_in(line, s);
    assert forall|i: int| 0 <= i < all.len() && !known[i] implies holds(#[trigger] all[i]) by {
        assert(known[i] == test(all[i]));
    }
    lemma_unknown_lines_hold(all, known, holds, n);
    let unknown = front + back;
    let (x, y) = if any_known(known, n) {
        (front, back)
    } else {
        (front + back, e)
    };
    assert(whole =~= x + replacement + y);
    assert forall|i: int| 0 <= i < x.len() implies holds(#[trigger] x[i]) by {
        assert(x[i] == unknown[i]);
    }
    assert forall|i: int| 0 <= i < y.len() implies holds(#[trigger] y[i]) by {
        assert(y[i] == unknown[front.len() + i]);
    }
    assert forall|i: int| 0 <= i < x.len() implies !test(#[trigger] x[i]) by {
        assert(holds(x[i]));
    }
    assert forall|i: int| 0 <= i < y.len() implies !test(#[trigger] y[i]) by {
        assert(holds(y[i]));
    }
    lemma_picked_none(x, test, x.len() as int);
    lemma_picked_none(y, test, y.len() as int);
    lemma_picked_all(replacement, test, replacement.len() as int);
    assert(replacement.take(replacement.len() as int) =~= replacement);
    lemma_picked_add(x, replacement, test, replacement.len() as int);
    lemma_picked_add(x + replacement, y, test, y.len() as int);
    assert(e + replacement + e =~= replacement);
    assert(picked(whole, test, whole.len() as int) == replacement);
    assert forall|i: int| 0 <= i < whole.len() implies is_kept_in(#[trigger] whole[i], s) by {
        if i < x.len() {
            assert(holds(x[i]));
        } else if i < x.len() + replacement.len() {
            assert(whole[i] == replacement[i - x.len()]);
        } else {
            assert(whole[i] == y[i - x.len() - replacement.len()]);
            assert(holds(y[i - x.len() - replacement.len()]));
        }
    }
    lemma_put_together_is_read(whole, s);
    assert(merged(s, known, replacement) == put_together(whole, s));
    let found = text::lines(put_together(whole, s));
    if found == whole {
    } else if whole.len() > 0 {
        assert(whole.last() =~= Seq::<char>::empty());
        lemma_picked_front(whole, found, test, whole.len() - 1);
    } else {
        assert(found[0] == Seq::<char>::empty());
        assert(picked(found, test, 1) == picked(found, test, 0));
        assert(picked(found, test, 0) =~= picked(whole, test, 0));
    }
}

/// The marked places are all of those that are marked, in their order.
pub proof fn lemma_marked(marks: Seq<bool>, n: int)
    requires
        0 <= n <= marks.len(),
    ensures
        places::picks_all(marked(marks, n), n, |p: int| marks[p]),
    decreases n,
{
    let wanted = |p: int| marks[p];
    if n > 0 {
        lemma_marked(marks, n - 1);
        places::lemma_pick_one_more(marked(marks, n - 1), n - 1, wanted);
    }
}

/// A text that is cut is the part before the separator, the separator and the part behind; and
/// the separator begins nowhere earlier. A text that is not cut does not hold it.
pub proof fn lemma_cut_at_the_first(s: Seq<char>, separator: Seq<char>)
    ensures
        match cut(s, separator) {
            None => !text::has_infix(s, separator),
            Some((before, after)) => before + separator + after == s && forall|k: int|
                0 <= k < before.len() ==> !#[trigger] text::occurs_at(s, separator, k),
        },
{
    lemma_first_place(s, separator, 0);
    let p = place_in(s, separator, 0);
    if p < 0 {
        assert forall|i: int| !text::occurs_at(s, separator, i) by {}
    } else {
        assert(s.take(p) + separator + s.skip(p + separator.len()) =~= s);
    }
}

proof fn lemma_first_place(hay: Seq<char>, needle: Seq<char>, from: int)
    requires
        0 <= from,
    ensures
        ({
            let p = place_in(hay, needle, from);
            if p < 0 {
                forall|k: int| from <= k ==> !#[trigger] text::occurs_at(hay, needle, k)
            } else {
                p >= from && text::occurs_at(hay, needle, p) && forall|k: int|
                    from <= k < p ==> !#[trigger] text::occurs_at(hay, needle, k)
            }
        }),
    decreases hay.len() + 1 - from,
{
    if from + needle.len() <= hay.len() && !text::occurs_at(hay, needle, from) {
        lemma_first_place(hay, needle, from + 1);
    }
}

proof fn lemma_stripped_start_is(s: Seq<char>, set: Seq<char>)
    ensures
        ({
            let n = s.len() - stripped_start(s, set).len();
            &&& 0 <= n <= s.len()
            &&& stripped_start(s, set) == s.skip(n)
            &&& forall|i: int| 0 <= i < n ==> set.contains(#[trigger] s[i])
            &&& stripped_start(s, set).len() > 0 ==> !set.contains(stripped_start(s, set)[0])
        }),
    decreases s.len(),
{
    if s.len() > 0 && set.contains(s[0]) {
        lemma_stripped_start_is(s.drop_first(), set);
        let n = s.len() - stripped_start(s, set).len();
        assert(s.drop_first().skip(n - 1) =~= s.skip(n));
        assert forall|i: int| 0 <= i < n implies set.contains(#[trigger] s[i]) by {
            if i > 0 {
                assert(s.drop_first()[i - 1] == s[i]);
            }
        }
    } else {
        assert(s.skip(0) =~= s);
    }
}

proof fn lemma_stripped_end_is(s: Seq<char>, set: Seq<char>)
    ensures
        ({
            let n = stripped_end(s, set).len() as int;
            &&& 0 <= n <= s.len()
            &&& stripped_end(s, set) == s.take(n)
            &&& forall|i: int| n <= i < s.len() ==> set.contains(#[trigger] s[i])
            &&& stripped_end(s, set).len() > 0 ==> !set.contains(stripped_end(s, set).last())
        }),
    decreases s.len(),
{
    if s.len() > 0 && set.contains(s.last()) {
        lemma_stripped_end_is(s.drop_last(), set);
        let n = stripped_end(s, set).len() as int;
        assert(s.drop_last().take(n) =~= s.take(n));
        assert forall|i: int| n <= i < s.len() implies set.contains(#[trigger] s[i]) by {
            if i < s.len() - 1 {
                assert(s.drop_last()[i] == s[i]);
            }
        }
    } else {
        assert(s.take(s.len() as int) =~= s);
    }
}

/// Stripping takes away characters of the set from both ends, all of them, and no other.
pub proof fn lemma_stripping_takes_the_ends(s: Seq<char>, set: Seq<char>)
    ensures
        exists|i: int, j: int|
            0 <= i <= j <= s.len() && #[trigger] s.subrange(i, j) == stripped(s, set) && (forall|
                k: int,
            |
                0 <= k < i || j <= k < s.len() ==> set.contains(#[trigger] s[k])),
        stripped(s, set).len() > 0 ==> !set.contains(stripped(s, set)[0]) && !set.contains(
            stripped(s, set).last(),
        ),
        exists|i: int|
            0 <= i <= s.len() && #[trigger] s.skip(i) == stripped_start(s, set) && (forall|k: int|
                0 <= k < i ==> set.contains(#[trigger] s[k])),
        stripped_start(s, set).len() > 0 ==> !set.contains(stripped_start(s, set)[0]),
{
    lemma_stripped_start_is(s, set);
    let front = stripped_start(s, set);
    lemma_stripped_end_is(front, set);
    let i = s.len() - front.len();
    let j = i + stripped(s, set).len();
    assert(s.skip(i) == front);
    assert(s.subrange(i, j) =~= stripped(s, set));
    assert forall|k: int| 0 <= k < i || j <= k < s.len() implies set.contains(#[trigger] s[k]) by {
        if j <= k {
            assert(front[k - i] == s[k]);
        }
    }
}

/// Files keep their line ends: pairs where there is one, line feeds where there is none.
pub proof fn lemma_line_ends_are_kept(s: Seq<char>)
    ensures
        newline_of(s) == "\r\n"@ || newline_of(s) == "\n"@,
        newline_of(s) == "\r\n"@ <==> exists|i: int|
            0 <= i < s.len() - 1 && #[trigger] s[i] == '\r' && s[i + 1] == '\n',
{
    reveal_strlit("\r\n");
    reveal_strlit("\n");
    assert("\r\n"@.len() == 2);
    assert("\n"@.len() == 1);
    if text::has_infix(s, "\r\n"@) {
        let i = choose|i: int| text::occurs_at(s, "\r\n"@, i);
        assert(s.subrange(i, i + 2)[0] == '\r');
        assert(s.subrange(i, i + 2)[1] == '\n');
        assert(s[i] == '\r');
    }
    if exists|i: int| 0 <= i < s.len() - 1 && #[trigger] s[i] == '\r' && s[i + 1] == '\n' {
        let i = choose|i: int| 0 <= i < s.len() - 1 && #[trigger] s[i] == '\r' && s[i + 1] == '\n';
        assert(s.subrange(i, i + 2) =~= "\r\n"@);
        assert(text::occurs_at(s, "\r\n"@, i));
    }
}

/// A setting has its name before the first sign, without white space around it, and its value
/// behind, as it is written.
pub proof fn lemma_settings_are_read(name: Seq<char>, value: Seq<char>)
    requires
        !name.contains('='),
    ensures
        setting_of(name + seq!['='] + value) == Some((text::trimmed(name), value)),
        setting_of(name) is None,
{
    reveal_strlit("=");
    let sign = seq!['='];
    assert("="@ =~= sign);
    let s = name + sign + value;
    assert(s.subrange(name.len() as int, name.len() as int + 1) =~= sign);
    assert forall|k: int| 0 <= k < name.len() implies !text::occurs_at(s, sign, k) by {
        assert(s.subrange(k, k + 1)[0] == name[k]);
        assert(sign[0] == '=');
    }
    lemma_place_is(s, sign, 0, name.len() as int);
    assert(s.take(name.len() as int) =~= name);
    assert(s.skip(name.len() as int + 1) =~= value);
    assert forall|k: int| 0 <= k implies !text::occurs_at(name, sign, k) by {
        if text::occurs_at(name, sign, k) {
            assert(name.subrange(k, k + 1)[0] == name[k]);
            assert(name.contains(name[k]));
        }
    }
    lemma_place_none(name, sign, 0);
}

/// What is exchanged stands where the first of the lines stood that it is put in for: all before
/// stays in front of it, and nothing of what was known is left.
pub proof fn lemma_replacement_stands_in_the_first_place(
    all: Seq<Seq<char>>,
    known: Seq<bool>,
    replacement: Seq<Seq<char>>,
    p: int,
    n: int,
)
    requires
        0 <= p < n <= all.len(),
        known.len() == all.len(),
        known[p],
        forall|i: int| 0 <= i < p ==> !#[trigger] known[i],
    ensures
        ({
            let after = exchanged(all, known, replacement, n);
            &&& after.len() >= p + replacement.len()
            &&& after.take(p) == all.take(p)
            &&& after.subrange(p, p + replacement.len()) == replacement
        }),
        exchanged(all, known, replacement, p) == all.take(p),
    decreases n,
{
    lemma_nothing_exchanged(all, known, replacement, p);
    if n == p + 1 {
        assert(!any_known(known, p));
        let after = exchanged(all, known, replacement, n);
        assert(after == all.take(p) + replacement);
        assert(after.take(p) =~= all.take(p));
        assert(after.subrange(p, p + replacement.len()) =~= replacement);
    } else {
        lemma_replacement_stands_in_the_first_place(all, known, replacement, p, n - 1);
        let before = exchanged(all, known, replacement, n - 1);
        let after = exchanged(all, known, replacement, n);
        assert(known[p]);
        assert(any_known(known, n - 1));
        if !known[n - 1] {
            assert(after == before.push(all[n - 1]));
        } else {
            assert(after == before);
        }
        assert(after.take(p) =~= before.take(p));
        assert(after.subrange(p, p + replacement.len()) =~= before.subrange(
            p,
            p + replacement.len(),
        ));
    }
}

proof fn lemma_nothing_exchanged(
    all: Seq<Seq<char>>,
    known: Seq<bool>,
    replacement: Seq<Seq<char>>,
    n: int,
)
    requires
        0 <= n <= all.len(),
        known.len() == all.len(),
        forall|i: int| 0 <= i < n ==> !#[trigger] known[i],
    ensures
        exchanged(all, known, replacement, n) == all.take(n),
    decreases n,
{
    if n > 0 {
        lemma_nothing_exchanged(all, known, replacement, n - 1);
        assert(all.take(n) =~= all.take(n - 1).push(all[n - 1]));
    } else {
        assert(all.take(0) =~= Seq::<Seq<char>>::empty());
    }
}

/// A text keeps its line ends when its lines are exchanged, and ends with one where it did.
pub proof fn lemma_put_together_like_before(all: Seq<Seq<char>>, like: Seq<char>)
    ensures
        like.len() > 0 && (like.last() == '\n' || like.last() == '\r') ==> put_together(all, like)
            == text::join(all, newline_of(like)) + newline_of(like),
        like.len() == 0 || (like.last() != '\n' && like.last() != '\r') ==> put_together(all, like)
            == text::join(all, newline_of(like)),
{
}

} // verus!
