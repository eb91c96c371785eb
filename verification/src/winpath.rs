//! Windows path texts, taken apart without looking at a file system.
//!
//! A path is a prefix (a drive, a network share or a verbatim or device
//! name), an optional root separator and a row of pieces between separators.

use crate::text;
use vstd::prelude::*;

verus! {

// ---------------------------------------------------------------------------
// Prefixes
// ---------------------------------------------------------------------------

/// A separator of an ordinary path.
pub open spec fn is_sep(c: char) -> bool {
    c == '\\' || c == '/'
}

/// An ASCII letter.
pub open spec fn is_letter(c: char) -> bool {
    ('A' <= c && c <= 'Z') || ('a' <= c && c <= 'z')
}

/// A path that begins with `\\?\`: its pieces know no separator but the backslash.
pub open spec fn verbatim(s: Seq<char>) -> bool {
    s.len() >= 4 && s[0] == '\\' && s[1] == '\\' && s[2] == '?' && s[3] == '\\'
}

/// Whether a character separates pieces of the path `s`.
pub open spec fn parts_at(s: Seq<char>, c: char) -> bool {
    if verbatim(s) {
        c == '\\'
    } else {
        is_sep(c)
    }
}

/// The end of the piece that begins at `i`.
pub open spec fn piece_end(s: Seq<char>, i: int) -> int
    decreases s.len() - i,
{
    if i < 0 || i >= s.len() || parts_at(s, s[i]) {
        i
    } else {
        piece_end(s, i + 1)
    }
}

/// The end of the second of two pieces, of which the first begins at `i`.
pub open spec fn second_piece_end(s: Seq<char>, i: int) -> int {
    let first = piece_end(s, i);
    if first < s.len() {
        piece_end(s, first + 1)
    } else {
        first
    }
}

/// A drive letter and a colon at position `i`.
pub open spec fn drive_at(s: Seq<char>, i: int) -> bool {
    0 <= i && i + 1 < s.len() && is_letter(s[i]) && s[i + 1] == ':'
}

/// The mark of a network share stands behind the mark of a verbatim path.
pub open spec fn unc_mark(s: Seq<char>) -> bool {
    s.len() >= 8 && s[4] == 'U' && s[5] == 'N' && s[6] == 'C' && is_sep(s[7])
}

/// The length of the prefix of a path.
pub open spec fn prefix_len(s: Seq<char>) -> int {
    if verbatim(s) {
        if unc_mark(s) {
            let server = piece_end(s, 8);
            let share = second_piece_end(s, 8);
            if share > server + 1 {
                share
            } else {
                server
            }
        } else if drive_at(s, 4) && (s.len() == 6 || is_sep(s[6])) {
            6
        } else {
            piece_end(s, 4)
        }
    } else if s.len() >= 2 && is_sep(s[0]) && is_sep(s[1]) {
        if s.len() >= 4 && s[2] == '.' && is_sep(s[3]) {
            piece_end(s, 4)
        } else {
            let server = piece_end(s, 2);
            let share = second_piece_end(s, 2);
            if server > 2 && share > server + 1 {
                share
            } else {
                0
            }
        }
    } else if drive_at(s, 0) {
        2
    } else {
        0
    }
}

/// The prefix is a drive and nothing more.
pub open spec fn drive_prefix(s: Seq<char>) -> bool {
    prefix_len(s) == 2 && drive_at(s, 0)
}

/// A separator stands behind the prefix.
pub open spec fn root_written(s: Seq<char>) -> bool {
    prefix_len(s) < s.len() && is_sep(s[prefix_len(s)])
}

/// The path starts at a root: one is written, or the prefix implies it.
pub open spec fn has_root(s: Seq<char>) -> bool {
    root_written(s) || (prefix_len(s) > 0 && !drive_prefix(s))
}

/// The path names its place without a working directory.
pub open spec fn absolute(s: Seq<char>) -> bool {
    prefix_len(s) > 0 && has_root(s)
}

proof fn lemma_piece_end(s: Seq<char>, i: int)
    requires
        0 <= i,
    ensures
        i <= piece_end(s, i),
        i <= s.len() ==> piece_end(s, i) <= s.len(),
        forall|k: int| i <= k < piece_end(s, i) ==> !parts_at(s, #[trigger] s[k]),
    decreases s.len() - i,
{
    if i < s.len() && !parts_at(s, s[i]) {
        lemma_piece_end(s, i + 1);
    }
}

/// The prefix lies within the path.
pub proof fn lemma_prefix_len(s: Seq<char>)
    ensures
        0 <= prefix_len(s) <= s.len(),
{
    lemma_piece_end(s, 2);
    lemma_piece_end(s, 4);
    lemma_piece_end(s, 8);
    lemma_piece_end(s, piece_end(s, 2) + 1);
    lemma_piece_end(s, piece_end(s, 8) + 1);
}

fn is_letter_char(c: char) -> (r: bool)
    ensures
        r == is_letter(c),
{
    ('A' <= c && c <= 'Z') || ('a' <= c && c <= 'z')
}

/// Whether a path begins with `\\?\`.
pub fn is_verbatim(s: &[char]) -> (r: bool)
    ensures
        r == verbatim(s@),
{
    s.len() >= 4 && s[0] == '\\' && s[1] == '\\' && s[2] == '?' && s[3] == '\\'
}

fn find_piece_end(s: &[char], i: usize) -> (r: usize)
    requires
        i <= s.len(),
    ensures
        r == piece_end(s@, i as int),
        i <= r <= s.len(),
{
    let only_backslash = is_verbatim(s);
    let mut k: usize = i;
    while k < s.len() && !(s[k] == '\\' || (!only_backslash && s[k] == '/'))
        invariant
            i <= k <= s.len(),
            only_backslash == verbatim(s@),
            piece_end(s@, i as int) == piece_end(s@, k as int),
        decreases s.len() - k,
    {
        k += 1;
    }
    k
}

fn find_second_piece_end(s: &[char], i: usize) -> (r: usize)
    requires
        i <= s.len(),
    ensures
        r == second_piece_end(s@, i as int),
        i <= r <= s.len(),
{
    let first: usize = find_piece_end(s, i);
    if first < s.len() {
        find_piece_end(s, first + 1)
    } else {
        first
    }
}

fn has_drive_at(s: &[char], i: usize) -> (r: bool)
    ensures
        r == drive_at(s@, i as int),
{
    i < s.len() && s.len() - i >= 2 && is_letter_char(s[i]) && s[i + 1] == ':'
}

/// The length of the prefix.
pub fn prefix_length(s: &[char]) -> (r: usize)
    ensures
        r == prefix_len(s@),
        r <= s.len(),
{
    if is_verbatim(s) {
        if s.len() >= 8 && s[4] == 'U' && s[5] == 'N' && s[6] == 'C' && (s[7] == '\\'
            || s[7] == '/') {
            let server: usize = find_piece_end(s, 8);
            let share: usize = find_second_piece_end(s, 8);
            if share > server && share - server > 1 {
                share
            } else {
                server
            }
        } else if has_drive_at(s, 4) && (s.len() == 6 || s[6] == '\\' || s[6] == '/') {
            6
        } else {
            find_piece_end(s, 4)
        }
    } else if s.len() >= 2 && (s[0] == '\\' || s[0] == '/') && (s[1] == '\\' || s[1] == '/') {
        if s.len() >= 4 && s[2] == '.' && (s[3] == '\\' || s[3] == '/') {
            find_piece_end(s, 4)
        } else {
            let server: usize = find_piece_end(s, 2);
            let share: usize = find_second_piece_end(s, 2);
            if server > 2 && share > server && share - server > 1 {
                share
            } else {
                0
            }
        }
    } else if has_drive_at(s, 0) {
        2
    } else {
        0
    }
}

fn separates(only_backslash: bool, c: char) -> (r: bool)
    ensures
        r == (c == '\\' || (!only_backslash && c == '/')),
{
    c == '\\' || (!only_backslash && c == '/')
}

fn writes_root(s: &[char], prefix: usize) -> (r: bool)
    requires
        prefix == prefix_len(s@),
    ensures
        r == root_written(s@),
{
    prefix < s.len() && (s[prefix] == '\\' || s[prefix] == '/')
}

/// Whether the path starts at a root.
pub fn starts_at_root(s: &[char]) -> (r: bool)
    ensures
        r == has_root(s@),
{
    let prefix: usize = prefix_length(s);
    writes_root(s, prefix) || (prefix > 0 && !(prefix == 2 && has_drive_at(s, 0)))
}

/// Whether the path is absolute.
pub fn is_absolute(s: &[char]) -> (r: bool)
    ensures
        r == absolute(s@),
{
    prefix_length(s) > 0 && starts_at_root(s)
}

// ---------------------------------------------------------------------------
// The last piece
// ---------------------------------------------------------------------------

/// The position behind prefix and written root.
pub open spec fn body_start(s: Seq<char>) -> int {
    if root_written(s) {
        prefix_len(s) + 1
    } else {
        prefix_len(s)
    }
}

/// The end of the path before `e` once trailing separators and trailing `.`
/// pieces are cut. A `.` that a relative path begins with stays.
pub open spec fn tail_cut(s: Seq<char>, e: int) -> int
    decreases e - body_start(s),
{
    if e <= body_start(s) || e > s.len() {
        e
    } else if parts_at(s, s[e - 1]) {
        tail_cut(s, e - 1)
    } else if s[e - 1] == '.' && !verbatim(s) && (e - 1 == body_start(s) || parts_at(s, s[e - 2]))
        && (has_root(s) || e - 1 > body_start(s)) {
        tail_cut(s, e - 1)
    } else {
        e
    }
}

/// The start of the piece that ends at `e`.
pub open spec fn piece_start(s: Seq<char>, e: int) -> int
    decreases e - body_start(s),
{
    if e <= body_start(s) || e > s.len() || parts_at(s, s[e - 1]) {
        e
    } else {
        piece_start(s, e - 1)
    }
}

/// The last piece, if there is one.
pub open spec fn last_piece(s: Seq<char>) -> Option<(int, int)> {
    let end = tail_cut(s, s.len() as int);
    if end <= body_start(s) {
        None
    } else {
        Some((piece_start(s, end), end))
    }
}

/// The name that a path ends with; none where it ends in `..` or names only a
/// root.
pub open spec fn file_name(s: Seq<char>) -> Option<Seq<char>> {
    match last_piece(s) {
        None => None,
        Some((start, end)) => {
            let piece = s.subrange(start, end);
            if piece == seq!['.', '.'] || piece == seq!['.'] {
                None
            } else {
                Some(piece)
            }
        },
    }
}

/// The path without its last piece.
pub open spec fn parent(s: Seq<char>) -> Option<Seq<char>> {
    match last_piece(s) {
        None => None,
        Some((start, end)) => Some(s.take(tail_cut(s, start))),
    }
}

/// The position of the last dot of a name that is not its first character.
pub open spec fn last_dot(name: Seq<char>, n: int) -> Option<int>
    decreases n,
{
    if n <= 0 || n > name.len() {
        None
    } else if name[n - 1] == '.' {
        if n - 1 == 0 {
            None
        } else {
            Some(n - 1)
        }
    } else {
        last_dot(name, n - 1)
    }
}

/// The file name without its extension.
pub open spec fn file_stem(s: Seq<char>) -> Option<Seq<char>> {
    match file_name(s) {
        None => None,
        Some(name) => match last_dot(name, name.len() as int) {
            None => Some(name),
            Some(d) => Some(name.take(d)),
        },
    }
}

/// What follows the last dot of the file name.
pub open spec fn extension(s: Seq<char>) -> Option<Seq<char>> {
    match file_name(s) {
        None => None,
        Some(name) => match last_dot(name, name.len() as int) {
            None => None,
            Some(d) => Some(name.skip(d + 1)),
        },
    }
}

proof fn lemma_tail_cut(s: Seq<char>, e: int)
    requires
        body_start(s) <= e <= s.len(),
    ensures
        body_start(s) <= tail_cut(s, e) <= e,
    decreases e,
{
    lemma_prefix_len(s);
    if e > body_start(s) {
        lemma_tail_cut(s, e - 1);
    }
}

proof fn lemma_piece_start(s: Seq<char>, e: int)
    requires
        body_start(s) <= e <= s.len(),
    ensures
        body_start(s) <= piece_start(s, e) <= e,
    decreases e,
{
    lemma_prefix_len(s);
    if e > body_start(s) {
        lemma_piece_start(s, e - 1);
    }
}

fn find_body_start(s: &[char]) -> (r: usize)
    ensures
        r == body_start(s@),
        r <= s.len(),
{
    let prefix: usize = prefix_length(s);
    if writes_root(s, prefix) {
        prefix + 1
    } else {
        prefix
    }
}

fn find_tail_cut(s: &[char], e: usize) -> (r: usize)
    requires
        body_start(s@) <= e <= s.len(),
    ensures
        r == tail_cut(s@, e as int),
        body_start(s@) <= r <= e,
{
    let body: usize = find_body_start(s);
    let only_backslash = is_verbatim(s);
    let rooted = starts_at_root(s);
    let mut k: usize = e;
    while k > body && (separates(only_backslash, s[k - 1]) || (s[k - 1] == '.' && !only_backslash
        && (k - 1 == body || separates(only_backslash, s[k - 2])) && (rooted || k - 1 > body)))
        invariant
            body <= k <= e <= s.len(),
            body == body_start(s@),
            only_backslash == verbatim(s@),
            rooted == has_root(s@),
            tail_cut(s@, e as int) == tail_cut(s@, k as int),
        decreases k,
    {
        k -= 1;
    }
    k
}

fn find_piece_start(s: &[char], e: usize) -> (r: usize)
    requires
        body_start(s@) <= e <= s.len(),
    ensures
        r == piece_start(s@, e as int),
        body_start(s@) <= r <= e,
{
    let body: usize = find_body_start(s);
    let only_backslash = is_verbatim(s);
    let mut k: usize = e;
    while k > body && !separates(only_backslash, s[k - 1])
        invariant
            body <= k <= e <= s.len(),
            body == body_start(s@),
            only_backslash == verbatim(s@),
            piece_start(s@, e as int) == piece_start(s@, k as int),
        decreases k,
    {
        k -= 1;
    }
    k
}

fn find_last_piece(s: &[char]) -> (r: Option<(usize, usize)>)
    ensures
        match last_piece(s@) {
            None => r is None,
            Some((start, end)) => r matches Some(found) && found.0 == start && found.1 == end
                && body_start(s@) <= found.0 <= found.1 <= s.len(),
        },
{
    let body: usize = find_body_start(s);
    let end: usize = find_tail_cut(s, s.len());
    if end <= body {
        None
    } else {
        Some((find_piece_start(s, end), end))
    }
}

/// The name that a path ends with.
pub fn file_name_of(s: &str) -> (r: Option<String>)
    ensures
        match file_name(s@) {
            None => r is None,
            Some(name) => r matches Some(found) && found@ == name,
        },
{
    let chars = text::chars_of(s);
    match find_last_piece(chars.as_slice()) {
        None => None,
        Some((start, end)) => {
            let piece = vstd::slice::slice_subrange(chars.as_slice(), start, end);
            let dots = (piece.len() == 1 && piece[0] == '.') || (piece.len() == 2 && piece[0] == '.'
                && piece[1] == '.');
            proof {
                if piece@.len() == 1 && piece@[0] == '.' {
                    assert(piece@ =~= seq!['.']);
                }
                if piece@.len() == 2 && piece@[0] == '.' && piece@[1] == '.' {
                    assert(piece@ =~= seq!['.', '.']);
                }
            }
            if dots {
                None
            } else {
                Some(text::string_of(piece))
            }
        },
    }
}

/// The path without its last piece.
pub fn parent_of(s: &str) -> (r: Option<String>)
    ensures
        match parent(s@) {
            None => r is None,
            Some(p) => r matches Some(found) && found@ == p,
        },
{
    let chars = text::chars_of(s);
    match find_last_piece(chars.as_slice()) {
        None => None,
        Some((start, _)) => {
            let end: usize = find_tail_cut(chars.as_slice(), start);
            proof {
                assert(s@.subrange(0, end as int) =~= s@.take(end as int));
            }
            Some(text::string_of(vstd::slice::slice_subrange(chars.as_slice(), 0, end)))
        },
    }
}

fn find_last_dot(name: &[char]) -> (r: Option<usize>)
    ensures
        match last_dot(name@, name@.len() as int) {
            None => r is None,
            Some(d) => r matches Some(found) && found == d && d < name.len(),
        },
{
    let mut n: usize = name.len();
    while n > 0
        invariant
            n <= name.len(),
            last_dot(name@, name@.len() as int) == last_dot(name@, n as int),
        decreases n,
    {
        if name[n - 1] == '.' {
            if n == 1 {
                return None;
            }
            return Some(n - 1);
        }
        n -= 1;
    }
    None
}

/// The file name without its extension.
pub fn file_stem_of(s: &str) -> (r: Option<String>)
    ensures
        match file_stem(s@) {
            None => r is None,
            Some(stem) => r matches Some(found) && found@ == stem,
        },
{
    match file_name_of(s) {
        None => None,
        Some(name) => {
            let chars = text::chars_of(name.as_str());
            match find_last_dot(chars.as_slice()) {
                None => Some(name),
                Some(d) => {
                    proof {
                        assert(chars@.subrange(0, d as int) =~= chars@.take(d as int));
                    }
                    Some(text::string_of(vstd::slice::slice_subrange(chars.as_slice(), 0, d)))
                },
            }
        },
    }
}

/// What follows the last dot of the file name.
pub fn extension_of(s: &str) -> (r: Option<String>)
    ensures
        match extension(s@) {
            None => r is None,
            Some(ext) => r matches Some(found) && found@ == ext,
        },
{
    match file_name_of(s) {
        None => None,
        Some(name) => {
            let chars = text::chars_of(name.as_str());
            match find_last_dot(chars.as_slice()) {
                None => None,
                Some(d) => {
                    proof {
                        assert(chars@.subrange(d + 1, chars@.len() as int) =~= chars@.skip(d + 1));
                    }
                    Some(
                        text::string_of(
                            vstd::slice::slice_subrange(chars.as_slice(), d + 1, chars.len()),
                        ),
                    )
                },
            }
        },
    }
}

// ---------------------------------------------------------------------------
// All pieces
// ---------------------------------------------------------------------------

/// The beginning and end of every piece from a position on. A `.` counts only in
/// a verbatim path or where a relative path begins with it.
pub open spec fn spans(s: Seq<char>, i: int) -> Seq<(int, int)>
    decreases s.len() - i,
{
    if i < 0 || i >= s.len() {
        Seq::empty()
    } else if parts_at(s, s[i]) {
        spans(s, i + 1)
    } else {
        let e = piece_end(s, i);
        if e <= i || e > s.len() {
            Seq::empty()
        } else if !verbatim(s) && s.subrange(i, e) == seq!['.'] && (has_root(s) || i
            != prefix_len(s)) {
            spans(s, e)
        } else {
            seq![(i, e)] + spans(s, e)
        }
    }
}

/// The pieces behind prefix and root.
pub open spec fn pieces(s: Seq<char>) -> Seq<Seq<char>> {
    let places = spans(s, body_start(s));
    Seq::new(places.len(), |k: int| s.subrange(places[k].0, places[k].1))
}

/// Spans as numbers.
pub open spec fn span_values(v: Seq<(usize, usize)>) -> Seq<(int, int)> {
    Seq::new(v.len(), |i: int| (v[i].0 as int, v[i].1 as int))
}

proof fn lemma_spans_inside(s: Seq<char>, i: int)
    requires
        0 <= i,
    ensures
        forall|k: int|
            0 <= k < spans(s, i).len() ==> i <= (#[trigger] spans(s, i)[k]).0 < spans(s, i)[k].1
                <= s.len(),
        forall|k: int, m: int|
            #![trigger spans(s, i)[k], spans(s, i)[m]]
            0 <= k < m < spans(s, i).len() ==> spans(s, i)[k].1 <= spans(s, i)[m].0,
    decreases s.len() - i,
{
    if i < s.len() {
        if parts_at(s, s[i]) {
            lemma_spans_inside(s, i + 1);
            assert(spans(s, i) == spans(s, i + 1));
        } else {
            lemma_piece_end(s, i);
            let e = piece_end(s, i);
            if e > i {
                lemma_spans_inside(s, e);
                assert(spans(s, i) == spans(s, e) || spans(s, i) == seq![(i, e)] + spans(s, e));
                let rest = spans(s, e);
                let all = seq![(i, e)] + rest;
                assert forall|k: int| 0 <= k < all.len() implies i <= (#[trigger] all[k]).0
                    < all[k].1 <= s.len() by {
                    if k > 0 {
                        assert(all[k] == rest[k - 1]);
                    }
                }
                assert forall|k: int, m: int|
                    #![trigger all[k], all[m]]
                    0 <= k < m < all.len() implies all[k].1 <= all[m].0 by {
                    assert(all[m] == rest[m - 1]);
                    if k > 0 {
                        assert(all[k] == rest[k - 1]);
                    }
                }
            }
        }
    }
}

fn piece_spans(s: &[char]) -> (r: Vec<(usize, usize)>)
    ensures
        span_values(r@) == spans(s@, body_start(s@)),
        forall|k: int| 0 <= k < r@.len() ==> (#[trigger] r@[k]).0 < r@[k].1 <= s@.len(),
        forall|k: int, m: int|
            #![trigger r@[k], r@[m]]
            0 <= k < m < r@.len() ==> r@[k].1 <= r@[m].0,
{
    let prefix: usize = prefix_length(s);
    let plain = !is_verbatim(s);
    let rooted = starts_at_root(s);
    let mut out: Vec<(usize, usize)> = Vec::new();
    let mut i: usize = find_body_start(s);
    let ghost whole = spans(s@, i as int);
    let ghost first = i as int;
    proof {
        assert(span_values(out@) =~= Seq::<(int, int)>::empty());
        assert(span_values(out@) + spans(s@, i as int) =~= whole);
    }
    while i < s.len()
        invariant
            i <= s.len(),
            prefix == prefix_len(s@),
            first == body_start(s@),
            plain == !verbatim(s@),
            rooted == has_root(s@),
            whole == span_values(out@) + spans(s@, i as int),
        decreases s.len() - i,
    {
        let separator = s[i] == '\\' || (plain && s[i] == '/');
        if separator {
            i += 1;
        } else {
            let e: usize = find_piece_end(s, i);
            proof {
                lemma_piece_end(s@, i as int);
                assert(piece_end(s@, i as int) > i) by {
                    lemma_piece_end(s@, i + 1);
                }
                if e == i + 1 {
                    assert(s@.subrange(i as int, e as int) =~= seq![s@[i as int]]);
                } else {
                    assert(s@.subrange(i as int, e as int).len() != 1);
                }
            }
            let dot = e == i + 1 && s[i] == '.';
            if plain && dot && (rooted || i != prefix) {
                proof {
                    assert(s@.subrange(i as int, e as int) =~= seq!['.']);
                }
            } else {
                let ghost before = out@;
                out.push((i, e));
                proof {
                    if s@.subrange(i as int, e as int) == seq!['.'] {
                        assert(s@.subrange(i as int, e as int)[0] == '.');
                    }
                    assert(span_values(out@) =~= span_values(before).push((i as int, e as int)));
                    assert(span_values(before) + (seq![(i as int, e as int)] + spans(s@, e as int))
                        =~= span_values(out@) + spans(s@, e as int));
                }
            }
            i = e;
        }
    }
    proof {
        assert(spans(s@, i as int) =~= Seq::<(int, int)>::empty());
        assert(span_values(out@) =~= whole);
        lemma_prefix_len(s@);
        lemma_spans_inside(s@, first);
        assert forall|k: int| 0 <= k < out@.len() implies (#[trigger] out@[k]).0 < out@[k].1
            <= s@.len() by {
            assert(span_values(out@)[k] == whole[k]);
        }
        assert forall|k: int, m: int|
            #![trigger out@[k], out@[m]]
            0 <= k < m < out@.len() implies out@[k].1 <= out@[m].0 by {
            assert(span_values(out@)[k] == whole[k]);
            assert(span_values(out@)[m] == whole[m]);
        }
    }
    out
}

/// The pieces behind prefix and root.
fn find_pieces(s: &[char]) -> (r: Vec<String>)
    ensures
        text::texts(r@) == pieces(s@),
{
    let places = piece_spans(s);
    let ghost all = spans(s@, body_start(s@));
    let mut out: Vec<String> = Vec::new();
    let mut k: usize = 0;
    proof {
        assert(all.len() == places@.len());
        assert(text::texts(out@) =~= pieces(s@).take(0));
    }
    while k < places.len()
        invariant
            k <= places.len(),
            all == spans(s@, body_start(s@)),
            span_values(places@) == all,
            all.len() == places@.len(),
            forall|m: int| 0 <= m < places@.len() ==> (#[trigger] places@[m]).0 < places@[m].1 <= s@.len(),
            text::texts(out@) == pieces(s@).take(k as int),
        decreases places.len() - k,
    {
        let ghost before = out@;
        proof {
            assert(span_values(places@)[k as int] == all[k as int]);
        }
        let piece = text::string_of(vstd::slice::slice_subrange(s, places[k].0, places[k].1));
        let ghost added = piece@;
        out.push(piece);
        k += 1;
        proof {
            assert(text::texts(out@) =~= text::texts(before).push(added));
            assert(text::texts(out@) =~= pieces(s@).take(k as int));
        }
    }
    proof {
        assert(pieces(s@).take(k as int) =~= pieces(s@));
    }
    out
}

// ---------------------------------------------------------------------------
// Joining and resolving
// ---------------------------------------------------------------------------

/// The root counts as a part of its own: it is written, or a prefix that is no drive and
/// not verbatim implies it.
pub open spec fn root_counts(s: Seq<char>) -> bool {
    root_written(s) || (prefix_len(s) > 0 && !drive_prefix(s) && !verbatim(s))
}

/// Pieces after others were entered behind them: a `.` changes nothing, and a `..` takes a
/// name away that stands in front of it.
pub open spec fn entered(list: Seq<Seq<char>>, more: Seq<Seq<char>>) -> Seq<Seq<char>>
    decreases more.len(),
{
    if more.len() == 0 {
        list
    } else {
        let before = entered(list, more.drop_last());
        if more.last() == seq!['.'] {
            before
        } else if more.last() == seq!['.', '.'] {
            if before.len() > 0 && before.last() != seq!['.'] && before.last() != seq!['.', '.'] {
                before.drop_last()
            } else {
                before
            }
        } else {
            before.push(more.last())
        }
    }
}

/// A path as seen from a verbatim base: its pieces are entered one by one, and set apart
/// by single backslashes.
pub open spec fn joined_verbatim(base: Seq<char>, path: Seq<char>) -> Seq<char> {
    let rooted = root_written(base) || root_written(path);
    let all = entered(
        if root_written(path) {
            Seq::empty()
        } else {
            pieces(base)
        },
        pieces(path),
    );
    base.take(prefix_len(base)) + (if rooted || all.len() > 0 {
        seq!['\\']
    } else {
        Seq::empty()
    }) + text::join(all, seq!['\\'])
}

/// A path as seen from a base.
pub open spec fn joined(base: Seq<char>, path: Seq<char>) -> Seq<char> {
    if prefix_len(path) > 0 {
        path
    } else if verbatim(base) && path.len() > 0 {
        joined_verbatim(base, path)
    } else if root_written(path) {
        base.take(prefix_len(base)) + path
    } else if base.len() == 0 || is_sep(base.last()) || (drive_prefix(base) && base.len() == 2) {
        base + path
    } else {
        base.push('\\') + path
    }
}

/// The parts of a path: its prefix, its root and its pieces.
pub open spec fn parts(s: Seq<char>) -> Seq<Seq<char>> {
    (if prefix_len(s) > 0 {
        seq![s.take(prefix_len(s))]
    } else {
        Seq::empty()
    }) + (if root_counts(s) {
        seq![seq!['\\']]
    } else {
        Seq::empty()
    }) + pieces(s)
}

/// A path without its last piece, or as it is where it has none.
pub open spec fn popped(s: Seq<char>) -> Seq<char> {
    match parent(s) {
        Some(p) => p,
        None => s,
    }
}

/// The path that parts make one after the other: a `.` changes nothing, a `..` takes the
/// last piece away, and anything else is joined.
pub open spec fn built(list: Seq<Seq<char>>) -> Seq<char>
    decreases list.len(),
{
    if list.len() == 0 {
        Seq::empty()
    } else {
        let before = built(list.drop_last());
        if list.last() == seq!['.'] {
            before
        } else if list.last() == seq!['.', '.'] {
            popped(before)
        } else {
            joined(before, list.last())
        }
    }
}

/// A path made anew from its parts, with its `.` and `..` pieces resolved.
pub open spec fn lexical(s: Seq<char>) -> Seq<char> {
    built(parts(s))
}

/// The absolute form of a path as seen from a working directory.
pub open spec fn lexical_absolute(path: Seq<char>, working_directory: Seq<char>) -> Seq<char> {
    if absolute(path) {
        lexical(path)
    } else {
        lexical(joined(working_directory, path))
    }
}

/// Enters pieces behind others.
fn enter_pieces(list: &mut Vec<String>, more: &[String])
    ensures
        text::texts(final(list)@) == entered(text::texts(old(list)@), text::texts(more@)),
{
    let ghost first = text::texts(list@);
    let ghost all = text::texts(more@);
    let mut i: usize = 0;
    proof {
        assert(all.take(0) =~= Seq::<Seq<char>>::empty());
    }
    while i < more.len()
        invariant
            i <= more.len(),
            all == text::texts(more@),
            text::texts(list@) == entered(first, all.take(i as int)),
        decreases more.len() - i,
    {
        let ghost before = list@;
        proof {
            assert(all.take(i + 1).drop_last() =~= all.take(i as int));
            assert(all.take(i + 1).last() == more@[i as int]@);
            assert(before.len() > 0 ==> text::texts(before).last() == before.last()@);
        }
        if is_dot(more[i].as_str()) {
        } else if is_dot_dot(more[i].as_str()) {
            proof {
                let dot = seq!['.'];
                assert(more@[i as int]@ != dot) by {
                    assert(more@[i as int]@.len() == 2 && dot.len() == 1);
                }
            }
            let n: usize = list.len();
            if n > 0 && !is_dot(list[n - 1].as_str()) && !is_dot_dot(list[n - 1].as_str()) {
                let _ = list.pop();
                proof {
                    assert(text::texts(list@) =~= text::texts(before).drop_last());
                }
            }
        } else {
            list.push(more[i].clone());
            proof {
                assert(text::texts(list@) =~= text::texts(before).push(more@[i as int]@));
            }
        }
        i += 1;
    }
    proof {
        assert(all.take(more@.len() as int) =~= all);
    }
}

/// Joins a path without a prefix to a verbatim base.
fn join_verbatim(b: &[char], p: &[char]) -> (r: String)
    requires
        prefix_len(p@) == 0,
    ensures
        r@ == joined_verbatim(b@, p@),
{
    let base_prefix: usize = prefix_length(b);
    let path_rooted = writes_root(p, 0);
    let rooted = writes_root(b, base_prefix) || path_rooted;
    let mut all: Vec<String> = if path_rooted {
        Vec::new()
    } else {
        find_pieces(b)
    };
    proof {
        if path_rooted {
            assert(text::texts(all@) =~= Seq::<Seq<char>>::empty());
        }
    }
    let more = find_pieces(p);
    enter_pieces(&mut all, more.as_slice());
    let mut out = text::string_of(vstd::slice::slice_subrange(b, 0, base_prefix));
    proof {
        assert(b@.subrange(0, base_prefix as int) =~= b@.take(base_prefix as int));
        assert(text::texts(all@).len() == all@.len());
    }
    if rooted || all.len() > 0 {
        out.push('\\');
    }
    let separator = "\\";
    proof {
        reveal_strlit("\\");
        assert(separator@ =~= seq!['\\']);
    }
    let body = text::join_texts(all.as_slice(), separator);
    out.append(body.as_str());
    proof {
        assert(out@ =~= joined_verbatim(b@, p@));
    }
    out
}

/// Joins a path to a base.
pub fn join_paths(base: &str, path: &str) -> (r: String)
    ensures
        r@ == joined(base@, path@),
{
    let b = text::chars_of(base);
    let p = text::chars_of(path);
    let prefix: usize = prefix_length(p.as_slice());
    if prefix > 0 {
        return path.to_owned();
    }
    if p.len() > 0 && is_verbatim(b.as_slice()) {
        return join_verbatim(b.as_slice(), p.as_slice());
    }
    if writes_root(p.as_slice(), prefix) {
        let base_prefix: usize = prefix_length(b.as_slice());
        let mut out = text::string_of(vstd::slice::slice_subrange(b.as_slice(), 0, base_prefix));
        proof {
            assert(b@.subrange(0, base_prefix as int) =~= b@.take(base_prefix as int));
        }
        out.append(path);
        return out;
    }
    let mut out = base.to_owned();
    if b.len() == 0 || b[b.len() - 1] == '\\' || b[b.len() - 1] == '/' || (b.len() == 2
        && has_drive_at(b.as_slice(), 0)) {
        proof {
            if b@.len() == 2 && drive_at(b@, 0) {
                assert(prefix_len(b@) == 2);
            }
        }
    } else {
        out.push('\\');
    }
    out.append(path);
    out
}

fn is_dot(s: &str) -> (r: bool)
    ensures
        r == (s@ == seq!['.']),
{
    let c = text::chars_of(s);
    let r = c.len() == 1 && c[0] == '.';
    proof {
        if r {
            assert(s@ =~= seq!['.']);
        }
    }
    r
}

fn is_dot_dot(s: &str) -> (r: bool)
    ensures
        r == (s@ == seq!['.', '.']),
{
    let c = text::chars_of(s);
    let r = c.len() == 2 && c[0] == '.' && c[1] == '.';
    proof {
        if r {
            assert(s@ =~= seq!['.', '.']);
        }
    }
    r
}

/// Finds the parts of a path.
fn find_parts(s: &[char]) -> (r: Vec<String>)
    ensures
        text::texts(r@) == parts(s@),
{
    let prefix: usize = prefix_length(s);
    let mut out: Vec<String> = Vec::new();
    proof {
        assert(text::texts(out@) =~= Seq::<Seq<char>>::empty());
    }
    if prefix > 0 {
        out.push(text::string_of(vstd::slice::slice_subrange(s, 0, prefix)));
        proof {
            assert(s@.subrange(0, prefix as int) =~= s@.take(prefix as int));
            assert(text::texts(out@) =~= seq![s@.take(prefix as int)]);
        }
    }
    if writes_root(s, prefix) || (prefix > 0 && !(prefix == 2 && has_drive_at(s, 0))
        && !is_verbatim(s)) {
        let ghost before = out@;
        let root = "\\";
        proof {
            reveal_strlit("\\");
            assert(root@ =~= seq!['\\']);
        }
        out.push(root.to_owned());
        proof {
            assert(text::texts(out@) =~= text::texts(before).push(seq!['\\']));
        }
    }
    let ghost head = text::texts(out@);
    let mut rest = find_pieces(s);
    let ghost own = out@;
    let ghost added = rest@;
    out.append(&mut rest);
    proof {
        assert(text::texts(out@) =~= text::texts(own) + text::texts(added));
        assert(text::texts(out@) =~= parts(s@));
    }
    out
}

/// Makes a path anew, with its `.` and `..` pieces resolved.
pub fn lexical_path(path: &str) -> (r: String)
    ensures
        r@ == lexical(path@),
{
    let chars = text::chars_of(path);
    let list = find_parts(chars.as_slice());
    let ghost all = text::texts(list@);
    let mut out = String::new();
    let mut i: usize = 0;
    proof {
        assert(all.take(0) =~= Seq::<Seq<char>>::empty());
        assert(out@ =~= Seq::<char>::empty());
    }
    while i < list.len()
        invariant
            i <= list.len(),
            all == text::texts(list@),
            out@ == built(all.take(i as int)),
        decreases list.len() - i,
    {
        proof {
            assert(all.take(i + 1).drop_last() =~= all.take(i as int));
            assert(all.take(i + 1).last() == list@[i as int]@);
        }
        if is_dot(list[i].as_str()) {
        } else if is_dot_dot(list[i].as_str()) {
            proof {
                let dot = seq!['.'];
                assert(list@[i as int]@ != dot) by {
                    assert(list@[i as int]@.len() == 2 && dot.len() == 1);
                }
            }
            if let Some(shorter) = parent_of(out.as_str()) {
                out = shorter;
            }
        } else {
            out = join_paths(out.as_str(), list[i].as_str());
        }
        i += 1;
    }
    proof {
        assert(all.take(list@.len() as int) =~= all);
    }
    out
}

/// The absolute form of a path, with its `.` and `..` pieces resolved.
pub fn lexical_absolute_path(path: &str, working_directory: &str) -> (r: String)
    ensures
        r@ == lexical_absolute(path@, working_directory@),
{
    let chars = text::chars_of(path);
    if is_absolute(chars.as_slice()) {
        lexical_path(path)
    } else {
        let whole = join_paths(working_directory, path);
        lexical_path(whole.as_str())
    }
}

/// A text that can stand as one piece: it holds no separator and no colon.
pub open spec fn unparted(s: Seq<char>) -> bool {
    forall|i: int| 0 <= i < s.len() ==> !is_sep(#[trigger] s[i]) && s[i] != ':'
}

/// What stands in front of a name that is joined to a base.
pub open spec fn front_of_names(base: Seq<char>) -> Seq<char> {
    if verbatim(base) {
        base.take(prefix_len(base)) + seq!['\\'] + (if pieces(base).len() > 0 {
            text::join(pieces(base), seq!['\\']) + seq!['\\']
        } else {
            Seq::empty()
        })
    } else if base.len() == 0 || is_sep(base.last()) || (drive_prefix(base) && base.len() == 2) {
        base
    } else {
        base.push('\\')
    }
}

/// A name that is joined to a base stands at the end of the path, behind a text that does
/// not depend on it.
pub proof fn lemma_joined_name(base: Seq<char>, name: Seq<char>)
    requires
        unparted(name),
        name.len() > 2,
    ensures
        joined(base, name) == front_of_names(base) + name,
{
    assert(!is_sep(name[0]) && name[1] != ':');
    assert(prefix_len(name) == 0 && !root_written(name));
    if verbatim(base) {
        lemma_whole_piece(name, 0);
        assert(name.subrange(0, name.len() as int) =~= name);
        assert(spans(name, name.len() as int) =~= Seq::empty());
        assert(spans(name, 0) =~= seq![(0int, name.len() as int)]);
        assert(pieces(name) =~= seq![name]);
        let list = pieces(base);
        let more = pieces(name);
        assert(more.drop_last() =~= Seq::empty());
        assert(entered(list, more.drop_last()) == list);
        assert(name != seq!['.'] && name != seq!['.', '.']) by {
            assert(seq!['.'].len() == 1 && seq!['.', '.'].len() == 2);
        }
        assert(entered(list, more) == list.push(name));
        assert(list.push(name).drop_last() =~= list);
        assert(joined(base, name) =~= front_of_names(base) + name);
    } else {
        assert(joined(base, name) =~= front_of_names(base) + name);
    }
}

proof fn lemma_whole_piece(s: Seq<char>, i: int)
    requires
        unparted(s),
        !verbatim(s),
        0 <= i <= s.len(),
    ensures
        piece_end(s, i) == s.len(),
    decreases s.len() - i,
{
    if i < s.len() {
        assert(!is_sep(s[i]));
        lemma_whole_piece(s, i + 1);
    }
}

// ---------------------------------------------------------------------------
// Paths below paths
// ---------------------------------------------------------------------------

/// The prefix of a path in the form in which prefixes are compared: the letter of
/// a drive is raised, and there is one separator.
pub open spec fn prefix_form(s: Seq<char>) -> Seq<char> {
    Seq::new(
        prefix_len(s) as nat,
        |i: int|
            if (drive_at(s, i) && (i == 0 || (verbatim(s) && i == 4 && prefix_len(s) == 6))) {
                ascii_upper(s[i])
            } else if s[i] == '/' && (!verbatim(s) || (i == 7 && unc_mark(s))) {
                '\\'
            } else {
                s[i]
            },
    )
}

/// An ASCII letter raised.
pub open spec fn ascii_upper(c: char) -> char {
    if 'a' <= c && c <= 'z' {
        ((c as u32 - 32) as u32) as char
    } else {
        c
    }
}

/// A path has parts at all.
pub open spec fn has_parts(s: Seq<char>) -> bool {
    prefix_len(s) > 0 || root_counts(s) || pieces(s).len() > 0
}

/// The pieces of one path begin with those of another.
pub open spec fn pieces_begin_with(path: Seq<char>, base: Seq<char>) -> bool {
    &&& pieces(base).len() <= pieces(path).len()
    &&& forall|k: int|
        0 <= k < pieces(base).len() ==> pieces(path)[k] == #[trigger] pieces(base)[k]
}

/// The first path stands below the second or is the same: part by part, the second is how
/// the first begins.
pub open spec fn below(path: Seq<char>, base: Seq<char>) -> bool {
    if !has_parts(base) {
        true
    } else {
        &&& verbatim(path) == verbatim(base)
        &&& prefix_form(path) == prefix_form(base)
        &&& if root_counts(base) || pieces(base).len() > 0 {
            root_counts(path) == root_counts(base) && pieces_begin_with(path, base)
        } else {
            true
        }
    }
}

/// What is left of a path behind a path that it stands below; nothing where it
/// does not.
pub open spec fn relative_to(path: Seq<char>, base: Seq<char>) -> Option<Seq<char>> {
    let a = spans(path, body_start(path));
    let n = pieces(base).len() as int;
    let end = if a.len() > 0 {
        a.last().1
    } else {
        body_start(path)
    };
    if !below(path, base) {
        None
    } else if !has_parts(base) {
        Some(path.take(end))
    } else if !root_counts(base) && n == 0 {
        Some(path.subrange(prefix_len(path), end))
    } else if a.len() == n {
        Some(Seq::empty())
    } else {
        Some(path.subrange(a[n].0, end))
    }
}

fn raise(c: char) -> (r: char)
    ensures
        r == ascii_upper(c),
{
    match c {
        'a' => 'A',
        'b' => 'B',
        'c' => 'C',
        'd' => 'D',
        'e' => 'E',
        'f' => 'F',
        'g' => 'G',
        'h' => 'H',
        'i' => 'I',
        'j' => 'J',
        'k' => 'K',
        'l' => 'L',
        'm' => 'M',
        'n' => 'N',
        'o' => 'O',
        'p' => 'P',
        'q' => 'Q',
        'r' => 'R',
        's' => 'S',
        't' => 'T',
        'u' => 'U',
        'v' => 'V',
        'w' => 'W',
        'x' => 'X',
        'y' => 'Y',
        'z' => 'Z',
        _ => c,
    }
}

fn comparable_prefix(s: &[char]) -> (r: Vec<char>)
    ensures
        r@ == prefix_form(s@),
{
    let prefix: usize = prefix_length(s);
    let only_backslash = is_verbatim(s);
    let network = s.len() >= 8 && s[4] == 'U' && s[5] == 'N' && s[6] == 'C' && (s[7] == '\\'
        || s[7] == '/');
    let mut out: Vec<char> = Vec::new();
    let mut i: usize = 0;
    while i < prefix
        invariant
            i <= prefix <= s.len(),
            prefix == prefix_len(s@),
            only_backslash == verbatim(s@),
            network == unc_mark(s@),
            out@ == prefix_form(s@).take(i as int),
        decreases prefix - i,
    {
        let c = s[i];
        let letter = (i == 0 || (only_backslash && i == 4 && prefix == 6)) && has_drive_at(s, i);
        if letter {
            out.push(raise(c));
        } else if c == '/' && (!only_backslash || (i == 7 && network)) {
            out.push('\\');
        } else {
            out.push(c);
        }
        i += 1;
        proof {
            assert(out@ =~= prefix_form(s@).take(i as int));
        }
    }
    proof {
        assert(out@ =~= prefix_form(s@));
    }
    out
}

/// Whether the root counts as a part of its own.
fn counts_root(s: &[char]) -> (r: bool)
    ensures
        r == root_counts(s@),
{
    let prefix: usize = prefix_length(s);
    writes_root(s, prefix) || (prefix > 0 && !(prefix == 2 && has_drive_at(s, 0))
        && !is_verbatim(s))
}

/// Whether texts begin with other texts.
fn begins_with_texts(list: &Vec<String>, front: &Vec<String>) -> (r: bool)
    ensures
        r == (front@.len() <= list@.len() && forall|k: int|
            0 <= k < front@.len() ==> text::texts(list@)[k] == #[trigger] text::texts(front@)[k]),
{
    if front.len() > list.len() {
        return false;
    }
    let mut k: usize = 0;
    while k < front.len()
        invariant
            k <= front.len() <= list.len(),
            forall|m: int|
                0 <= m < k ==> text::texts(list@)[m] == #[trigger] text::texts(front@)[m],
        decreases front.len() - k,
    {
        if !text::same_text(list[k].as_str(), front[k].as_str()) {
            proof {
                assert(text::texts(list@)[k as int] != text::texts(front@)[k as int]);
            }
            return false;
        }
        k += 1;
    }
    true
}

/// What is left of a path behind a path that it stands below.
pub fn relative_path(path: &str, base: &str) -> (r: Option<String>)
    ensures
        match relative_to(path@, base@) {
            None => r is None,
            Some(rest) => r matches Some(found) && found@ == rest,
        },
{
    let p = text::chars_of(path);
    let q = text::chars_of(base);
    let places = piece_spans(p.as_slice());
    let own = find_pieces(p.as_slice());
    let others = find_pieces(q.as_slice());
    let base_root = counts_root(q.as_slice());
    let base_prefix: usize = prefix_length(q.as_slice());
    let prefix: usize = prefix_length(p.as_slice());
    let body: usize = find_body_start(p.as_slice());
    let ghost a = spans(p@, body_start(p@));
    let n: usize = others.len();
    proof {
        assert(a.len() == places@.len());
        assert(text::texts(own@).len() == own@.len());
        assert(text::texts(others@).len() == others@.len());
        if places@.len() > 0 {
            assert(span_values(places@)[places@.len() - 1] == a.last());
        }
        if n < places@.len() {
            assert(span_values(places@)[n as int] == a[n as int]);
        }
        lemma_prefix_len(p@);
        lemma_spans_inside(p@, body as int);
    }
    let end: usize = if places.len() > 0 {
        places[places.len() - 1].1
    } else {
        body
    };
    if base_prefix == 0 && !base_root && n == 0 {
        proof {
            assert(p@.subrange(0, end as int) =~= p@.take(end as int));
        }
        return Some(text::string_of(vstd::slice::slice_subrange(p.as_slice(), 0, end)));
    }
    if is_verbatim(p.as_slice()) != is_verbatim(q.as_slice()) {
        return None;
    }
    let pf = comparable_prefix(p.as_slice());
    let qf = comparable_prefix(q.as_slice());
    if !text::same_chars(pf.as_slice(), qf.as_slice()) {
        return None;
    }
    if !base_root && n == 0 {
        return Some(text::string_of(vstd::slice::slice_subrange(p.as_slice(), prefix, end)));
    }
    if counts_root(p.as_slice()) != base_root || !begins_with_texts(&own, &others) {
        return None;
    }
    if places.len() == n {
        let none = String::new();
        proof {
            assert(none@ =~= Seq::<char>::empty());
        }
        return Some(none);
    }
    let first: usize = places[n].0;
    proof {
        if n < places@.len() - 1 {
            assert(places@[n as int].1 <= places@[places@.len() - 1].0);
        }
    }
    Some(text::string_of(vstd::slice::slice_subrange(p.as_slice(), first, end)))
}

// ---------------------------------------------------------------------------
// Folders and names
// ---------------------------------------------------------------------------

proof fn lemma_cut_tail(s: Seq<char>, e: int)
    requires
        body_start(s) <= e <= s.len(),
    ensures
        forall|k: int| tail_cut(s, e) <= k < e ==> is_sep(#[trigger] s[k]) || s[k] == '.',
    decreases e,
{
    lemma_prefix_len(s);
    if e > body_start(s) {
        lemma_cut_tail(s, e - 1);
    }
}

proof fn lemma_piece_has_no_separator(s: Seq<char>, e: int)
    requires
        body_start(s) <= e <= s.len(),
    ensures
        forall|k: int| piece_start(s, e) <= k < e ==> !parts_at(s, #[trigger] s[k]),
        piece_start(s, e) == body_start(s) || is_sep(s[piece_start(s, e) - 1]),
        e > body_start(s) && !parts_at(s, s[e - 1]) ==> piece_start(s, e) < e,
    decreases e,
{
    lemma_prefix_len(s);
    if e > body_start(s) && !parts_at(s, s[e - 1]) {
        lemma_piece_has_no_separator(s, e - 1);
        lemma_piece_start(s, e - 1);
    }
}

proof fn lemma_tail_is_cut(s: Seq<char>, e: int)
    requires
        body_start(s) <= e <= s.len(),
    ensures
        tail_cut(s, e) > body_start(s) ==> !parts_at(s, s[tail_cut(s, e) - 1]),
    decreases e,
{
    lemma_prefix_len(s);
    if e > body_start(s) {
        lemma_tail_is_cut(s, e - 1);
    }
}

/// A path is the folder that it stands in, then its last piece, with nothing but separators
/// and dots between the two and behind them. The piece holds no separator; it is the name of
/// the path, unless it is one or two dots.
pub proof fn lemma_path_is_folder_and_name(s: Seq<char>)
    requires
        parent(s) is Some,
    ensures
        ({
            let base = parent(s)->0;
            exists|start: int, end: int|
                base.len() <= start < end <= s.len() && s.take(base.len() as int) == base && (
                file_name(s) == (if s.subrange(start, end) == seq!['.', '.'] || s.subrange(
                    start,
                    end,
                ) == seq!['.'] {
                    None
                } else {
                    Some(#[trigger] s.subrange(start, end))
                })) && (forall|k: int|
                    start <= k < end ==> s[k] != '\\' && (verbatim(s) || #[trigger] s[k] != '/'))
                    && (forall|k: int|
                    base.len() <= k < start || end <= k < s.len() ==> is_sep(#[trigger] s[k])
                        || s[k] == '.') && (start == prefix_len(s) || is_sep(s[start - 1]))
        }),
{
    let end = tail_cut(s, s.len() as int);
    let start = piece_start(s, end);
    let cut = tail_cut(s, start);
    lemma_prefix_len(s);
    lemma_tail_cut(s, s.len() as int);
    lemma_piece_start(s, end);
    lemma_tail_cut(s, start);
    lemma_cut_tail(s, s.len() as int);
    lemma_cut_tail(s, start);
    lemma_tail_is_cut(s, s.len() as int);
    lemma_piece_has_no_separator(s, end);
    assert(s.take(cut).len() == cut);
    assert(s.take(s.take(cut).len() as int) =~= s.take(cut));
    let piece = s.subrange(start, end);
    assert(forall|k: int| start <= k < end ==> !parts_at(s, #[trigger] s[k]));
}

/// A path has a folder that it stands in unless it is a prefix with or without a root, or
/// nothing at all: what has a name has a folder.
pub proof fn lemma_named_paths_have_folders(s: Seq<char>)
    ensures
        file_name(s) is Some ==> parent(s) is Some,
        s.len() <= body_start(s) ==> parent(s) is None && file_name(s) is None,
        s.len() > body_start(s) && !is_sep(s.last()) && s.last() != '.' ==> (file_name(s) matches Some(
            name,
        ) && name.len() > 0 && name.last() == s.last()),
{
    lemma_prefix_len(s);
    if s.len() > body_start(s) && !is_sep(s.last()) && s.last() != '.' {
        let n = s.len() as int;
        assert(tail_cut(s, n) == n);
        lemma_piece_has_no_separator(s, n);
        lemma_piece_start(s, n);
        let piece = s.subrange(piece_start(s, n), n);
        assert(piece.last() == s.last());
        assert(seq!['.'].last() == '.' && seq!['.', '.'].last() == '.');
    }
}

/// The extension of a name is what stands behind its last dot, the stem what stands in front
/// of it; a name that begins with its only dot, or has none, is all stem.
pub proof fn lemma_stem_and_extension(s: Seq<char>)
    requires
        file_name(s) is Some,
    ensures
        file_stem(s) is Some,
        ({
            let name = file_name(s)->0;
            let stem = file_stem(s)->0;
            match extension(s) {
                Some(ext) => name == stem + seq!['.'] + ext && stem.len() > 0 && !ext.contains('.'),
                None => name == stem && forall|k: int|
                    0 < k < name.len() ==> #[trigger] name[k] != '.',
            }
        }),
{
    let name = file_name(s)->0;
    lemma_last_dot(name, name.len() as int);
    if let Some(d) = last_dot(name, name.len() as int) {
        let ext = name.skip(d + 1);
        assert(name =~= name.take(d) + seq!['.'] + ext);
        assert forall|k: int| 0 <= k < ext.len() implies ext[k] != '.' by {
            assert(ext[k] == name[d + 1 + k]);
        }
    }
}

proof fn lemma_last_dot(name: Seq<char>, n: int)
    requires
        0 <= n <= name.len(),
    ensures
        match last_dot(name, n) {
            Some(d) => 0 < d < n && name[d] == '.' && forall|k: int|
                d < k < n ==> #[trigger] name[k] != '.',
            None => forall|k: int| 0 < k < n ==> #[trigger] name[k] != '.',
        },
    decreases n,
{
    if n > 0 && name[n - 1] != '.' {
        lemma_last_dot(name, n - 1);
    }
}

/// Paths with a drive and a separator behind it are absolute, as are shares; a drive alone is
/// not, nor is what begins with a name.
pub proof fn lemma_absolute_paths(letter: char, rest: Seq<char>, s: Seq<char>)
    requires
        ('a' <= letter && letter <= 'z') || ('A' <= letter && letter <= 'Z'),
    ensures
        absolute(seq![letter, ':', '\\'] + rest),
        absolute(seq![letter, ':', '/'] + rest),
        !absolute(seq![letter, ':']),
        s.len() > 0 && !is_sep(s[0]) && (s.len() < 2 || s[1] != ':') ==> !absolute(s),
        absolute(s) ==> s.len() >= 3,
{
    let a = seq![letter, ':', '\\'] + rest;
    assert(a[0] == letter && a[1] == ':' && a[2] == '\\');
    let b = seq![letter, ':', '/'] + rest;
    assert(b[0] == letter && b[1] == ':' && b[2] == '/');
    lemma_prefix_len(s);
    if absolute(s) && s.len() < 3 {
        if !drive_at(s, 0) {
            lemma_piece_end(s, 2);
            assert(second_piece_end(s, 2) <= 2);
        }
    }
}

/// A path is nothing relative to itself, and not relative to what it does not begin with.
pub proof fn lemma_relative_paths(path: Seq<char>, base: Seq<char>)
    requires
        has_parts(base),
    ensures
        root_counts(base) || pieces(base).len() > 0 ==> relative_to(base, base) == Some(
            Seq::<char>::empty(),
        ),
        pieces(path).len() < pieces(base).len() ==> relative_to(path, base) is None,
        (exists|k: int|
            0 <= k < pieces(base).len() && k < pieces(path).len() && #[trigger] pieces(base)[k]
                != pieces(path)[k]) ==> relative_to(path, base) is None,
        prefix_form(path) != prefix_form(base) ==> relative_to(path, base) is None,
{
}

/// A dot leads nowhere, two dots lead out of where one was, and any other name leads further in.
pub proof fn lemma_dots_in_paths(list: Seq<Seq<char>>, name: Seq<char>)
    requires
        name != seq!['.'],
        name != seq!['.', '.'],
    ensures
        built(list.push(seq!['.'])) == built(list),
        built(list.push(name)) == joined(built(list), name),
        built(list.push(seq!['.', '.'])) == (match parent(built(list)) {
            Some(out) => out,
            None => built(list),
        }),
        built(Seq::empty()).len() == 0,
{
    assert(list.push(seq!['.']).drop_last() =~= list);
    assert(list.push(name).drop_last() =~= list);
    assert(list.push(seq!['.', '.']).drop_last() =~= list);
    assert(seq!['.'].len() != seq!['.', '.'].len());
}

/// In a path that is taken literally, a name is entered, a dot stays, and two dots leave the
/// last name that was entered.
pub proof fn lemma_names_that_are_entered(
    list: Seq<Seq<char>>,
    more: Seq<Seq<char>>,
    name: Seq<char>,
)
    requires
        name != seq!['.'],
        name != seq!['.', '.'],
    ensures
        entered(list, Seq::empty()) == list,
        entered(list, more.push(name)) == entered(list, more).push(name),
        entered(list, more.push(seq!['.'])) == entered(list, more),
        entered(list, more.push(name).push(seq!['.', '.'])) == entered(list, more),
{
    assert(more.push(seq!['.']).drop_last() =~= more);
    assert(more.push(name).drop_last() =~= more);
    let dot = seq!['.'];
    let dots = seq!['.', '.'];
    assert(dot.len() == 1 && dots.len() == 2);
    assert(dot != dots);
    let before = entered(list, more);
    assert(more.push(name).last() == name);
    assert(entered(list, more.push(name)) == before.push(name));
    assert(more.push(dot).last() == dot);
    let there = more.push(name);
    let back = there.push(dots);
    assert(back.last() == dots);
    assert(back.drop_last() =~= there);
    assert(before.push(name).last() == name);
    assert(entered(list, back) == entered(list, there).drop_last());
    assert(before.push(name).drop_last() =~= before);
}

} // verus!
