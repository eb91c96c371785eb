//! Characters and text: folding, trimming, splitting, searching, and the
//! decimal notation of integers.
//!
//! A text is modelled as the sequence of its characters.

use vstd::prelude::*;
use vstd::utf8::*;

verus! {

// ---------------------------------------------------------------------------
// Trusted statements about std
// ---------------------------------------------------------------------------

/// `String::push` appends one character.
pub assume_specification[ String::push ](string: &mut String, c: char)
    ensures
        final(string)@ == old(string)@.push(c),
;

/// What `char::is_alphanumeric` answers: the Unicode properties Alphabetic
/// and Numeric, which take tables to state.
pub uninterp spec fn unicode_alphanumeric(c: char) -> bool;

/// What `str::to_lowercase` gives for a text: the Unicode lowercase mapping,
/// which takes tables to state.
pub uninterp spec fn unicode_lowercase(s: Seq<char>) -> Seq<char>;

/// Calls `char::is_alphanumeric`. Among the ASCII characters the letters and
/// the digits are alphanumeric, and no others.
#[verifier::external_body]
pub(crate) fn is_alphanumeric(c: char) -> (r: bool)
    ensures
        r == unicode_alphanumeric(c),
        is_ascii_char(c) ==> r == ascii_alphanumeric(c),
{
    c.is_alphanumeric()
}

/// Calls `str::to_lowercase`. An ASCII text is lowered letter by letter.
#[verifier::external_body]
pub(crate) fn lowercase_string(s: &str) -> (r: String)
    ensures
        r@ == unicode_lowercase(s@),
        all_ascii(s@) ==> r@ == ascii_lower_seq(s@),
{
    s.to_lowercase()
}

// ---------------------------------------------------------------------------
// Characters
// ---------------------------------------------------------------------------

/// A character below U+0080.
pub open spec fn is_ascii_char(c: char) -> bool {
    (c as u32) < 0x80
}

/// An ASCII letter or digit.
pub open spec fn ascii_alphanumeric(c: char) -> bool {
    ('0' <= c && c <= '9') || ('A' <= c && c <= 'Z') || ('a' <= c && c <= 'z')
}

/// Only ASCII characters.
pub open spec fn all_ascii(s: Seq<char>) -> bool {
    forall|i: int| 0 <= i < s.len() ==> is_ascii_char(#[trigger] s[i])
}

/// The Unicode property White_Space.
pub open spec fn white_space(c: char) -> bool {
    let u = c as u32;
    ||| 0x09 <= u <= 0x0d
    ||| u == 0x20
    ||| u == 0x85
    ||| u == 0xa0
    ||| u == 0x1680
    ||| 0x2000 <= u <= 0x200a
    ||| u == 0x2028
    ||| u == 0x2029
    ||| u == 0x202f
    ||| u == 0x205f
    ||| u == 0x3000
}

/// Whether a character has the Unicode property White_Space.
pub fn is_white_space(c: char) -> (r: bool)
    ensures
        r == white_space(c),
{
    let u: u32 = c as u32;
    (0x09 <= u && u <= 0x0d) || u == 0x20 || u == 0x85 || u == 0xa0 || u == 0x1680 || (0x2000 <= u
        && u <= 0x200a) || u == 0x2028 || u == 0x2029 || u == 0x202f || u == 0x205f || u == 0x3000
}

/// An ASCII capital becomes the small letter; any other character stays.
pub open spec fn ascii_lower(c: char) -> char {
    if 'A' <= c && c <= 'Z' {
        ((c as u32 + 32) as u32) as char
    } else {
        c
    }
}

/// `ascii_lower` on every character.
pub open spec fn ascii_lower_seq(s: Seq<char>) -> Seq<char> {
    Seq::new(s.len(), |i: int| ascii_lower(s[i]))
}

/// Lowers one ASCII letter.
pub fn ascii_lower_char(c: char) -> (r: char)
    ensures
        r == ascii_lower(c),
{
    match c {
        'A' => 'a',
        'B' => 'b',
        'C' => 'c',
        'D' => 'd',
        'E' => 'e',
        'F' => 'f',
        'G' => 'g',
        'H' => 'h',
        'I' => 'i',
        'J' => 'j',
        'K' => 'k',
        'L' => 'l',
        'M' => 'm',
        'N' => 'n',
        'O' => 'o',
        'P' => 'p',
        'Q' => 'q',
        'R' => 'r',
        'S' => 's',
        'T' => 't',
        'U' => 'u',
        'V' => 'v',
        'W' => 'w',
        'X' => 'x',
        'Y' => 'y',
        'Z' => 'z',
        _ => c,
    }
}

// ---------------------------------------------------------------------------
// Between strings and vectors of characters
// ---------------------------------------------------------------------------

/// The characters of a text.
pub fn chars_of(s: &str) -> (r: Vec<char>)
    ensures
        r@ == s@,
{
    let mut out: Vec<char> = Vec::new();
    for c in it: s.chars()
        invariant
            it.seq() == s@,
            out@ == s@.take(it.index()),
    {
        out.push(c);
        proof {
            assert(s@.take(it.index() + 1) =~= s@.take(it.index()).push(c));
        }
    }
    proof {
        assert(s@.take(s@.len() as int) =~= s@);
    }
    out
}

/// The text that holds the given characters.
pub fn string_of(chars: &[char]) -> (r: String)
    ensures
        r@ == chars@,
{
    let mut out = String::new();
    let mut i: usize = 0;
    while i < chars.len()
        invariant
            i <= chars.len(),
            out@ == chars@.take(i as int),
        decreases chars.len() - i,
    {
        out.push(chars[i]);
        proof {
            assert(chars@.take(i + 1) =~= chars@.take(i as int).push(chars@[i as int]));
        }
        i += 1;
    }
    proof {
        assert(chars@.take(chars@.len() as int) =~= chars@);
    }
    out
}

/// Whether two texts hold the same characters.
pub fn same_text(a: &str, b: &str) -> (r: bool)
    ensures
        r == (a@ == b@),
{
    let x = a.as_bytes();
    let y = b.as_bytes();
    proof {
        encode_utf8_decode_utf8(a@);
        encode_utf8_decode_utf8(b@);
    }
    if x.len() != y.len() {
        return false;
    }
    let mut i: usize = 0;
    while i < x.len()
        invariant
            i <= x.len(),
            x.len() == y.len(),
            x@ == encode_utf8(a@),
            y@ == encode_utf8(b@),
            forall|k: int| 0 <= k < i ==> x@[k] == y@[k],
        decreases x.len() - i,
    {
        if x[i] != y[i] {
            proof {
                assert(x@[i as int] != y@[i as int]);
            }
            return false;
        }
        i += 1;
    }
    proof {
        assert(x@ =~= y@);
    }
    true
}

/// Whether two runs of characters are equal.
pub fn same_chars(a: &[char], b: &[char]) -> (r: bool)
    ensures
        r == (a@ == b@),
{
    if a.len() != b.len() {
        return false;
    }
    let mut i: usize = 0;
    while i < a.len()
        invariant
            i <= a.len(),
            a.len() == b.len(),
            forall|k: int| 0 <= k < i ==> a@[k] == b@[k],
        decreases a.len() - i,
    {
        if a[i] != b[i] {
            proof {
                assert(a@[i as int] != b@[i as int]);
            }
            return false;
        }
        i += 1;
    }
    proof {
        assert(a@ =~= b@);
    }
    true
}

// ---------------------------------------------------------------------------
// Folding
// ---------------------------------------------------------------------------

/// The ASCII letter that an accented Vietnamese letter is built on; any other
/// character stays.
pub open spec fn folded(c: char) -> char {
    match c {
        '\u{00e0}' | '\u{00e1}' | '\u{1ea1}' | '\u{1ea3}' | '\u{00e3}' | '\u{00e2}'
        | '\u{1ea7}' | '\u{1ea5}' | '\u{1ead}' | '\u{1ea9}' | '\u{1eab}' | '\u{0103}'
        | '\u{1eb1}' | '\u{1eaf}' | '\u{1eb7}' | '\u{1eb3}' | '\u{1eb5}' => 'a',
        '\u{00c0}' | '\u{00c1}' | '\u{1ea0}' | '\u{1ea2}' | '\u{00c3}' | '\u{00c2}'
        | '\u{1ea6}' | '\u{1ea4}' | '\u{1eac}' | '\u{1ea8}' | '\u{1eaa}' | '\u{0102}'
        | '\u{1eb0}' | '\u{1eae}' | '\u{1eb6}' | '\u{1eb2}' | '\u{1eb4}' => 'A',
        '\u{00e8}' | '\u{00e9}' | '\u{1eb9}' | '\u{1ebb}' | '\u{1ebd}' | '\u{00ea}'
        | '\u{1ec1}' | '\u{1ebf}' | '\u{1ec7}' | '\u{1ec3}' | '\u{1ec5}' => 'e',
        '\u{00c8}' | '\u{00c9}' | '\u{1eb8}' | '\u{1eba}' | '\u{1ebc}' | '\u{00ca}'
        | '\u{1ec0}' | '\u{1ebe}' | '\u{1ec6}' | '\u{1ec2}' | '\u{1ec4}' => 'E',
        '\u{00ec}' | '\u{00ed}' | '\u{1ecb}' | '\u{1ec9}' | '\u{0129}' => 'i',
        '\u{00cc}' | '\u{00cd}' | '\u{1eca}' | '\u{1ec8}' | '\u{0128}' => 'I',
        '\u{00f2}' | '\u{00f3}' | '\u{1ecd}' | '\u{1ecf}' | '\u{00f5}' | '\u{00f4}'
        | '\u{1ed3}' | '\u{1ed1}' | '\u{1ed9}' | '\u{1ed5}' | '\u{1ed7}' | '\u{01a1}'
        | '\u{1edd}' | '\u{1edb}' | '\u{1ee3}' | '\u{1edf}' | '\u{1ee1}' => 'o',
        '\u{00d2}' | '\u{00d3}' | '\u{1ecc}' | '\u{1ece}' | '\u{00d5}' | '\u{00d4}'
        | '\u{1ed2}' | '\u{1ed0}' | '\u{1ed8}' | '\u{1ed4}' | '\u{1ed6}' | '\u{01a0}'
        | '\u{1edc}' | '\u{1eda}' | '\u{1ee2}' | '\u{1ede}' | '\u{1ee0}' => 'O',
        '\u{00f9}' | '\u{00fa}' | '\u{1ee5}' | '\u{1ee7}' | '\u{0169}' | '\u{01b0}'
        | '\u{1eeb}' | '\u{1ee9}' | '\u{1ef1}' | '\u{1eed}' | '\u{1eef}' => 'u',
        '\u{00d9}' | '\u{00da}' | '\u{1ee4}' | '\u{1ee6}' | '\u{0168}' | '\u{01af}'
        | '\u{1eea}' | '\u{1ee8}' | '\u{1ef0}' | '\u{1eec}' | '\u{1eee}' => 'U',
        '\u{1ef3}' | '\u{00fd}' | '\u{1ef5}' | '\u{1ef7}' | '\u{1ef9}' => 'y',
        '\u{1ef2}' | '\u{00dd}' | '\u{1ef4}' | '\u{1ef6}' | '\u{1ef8}' => 'Y',
        '\u{0111}' => 'd',
        '\u{0110}' => 'D',
        _ => c,
    }
}

/// Replaces an accented Vietnamese letter by its ASCII base letter.
pub fn fold_char(value: char) -> (r: char)
    ensures
        r == folded(value),
{
    match value {
        '\u{00e0}' | '\u{00e1}' | '\u{1ea1}' | '\u{1ea3}' | '\u{00e3}' | '\u{00e2}'
        | '\u{1ea7}' | '\u{1ea5}' | '\u{1ead}' | '\u{1ea9}' | '\u{1eab}' | '\u{0103}'
        | '\u{1eb1}' | '\u{1eaf}' | '\u{1eb7}' | '\u{1eb3}' | '\u{1eb5}' => 'a',
        '\u{00c0}' | '\u{00c1}' | '\u{1ea0}' | '\u{1ea2}' | '\u{00c3}' | '\u{00c2}'
        | '\u{1ea6}' | '\u{1ea4}' | '\u{1eac}' | '\u{1ea8}' | '\u{1eaa}' | '\u{0102}'
        | '\u{1eb0}' | '\u{1eae}' | '\u{1eb6}' | '\u{1eb2}' | '\u{1eb4}' => 'A',
        '\u{00e8}' | '\u{00e9}' | '\u{1eb9}' | '\u{1ebb}' | '\u{1ebd}' | '\u{00ea}'
        | '\u{1ec1}' | '\u{1ebf}' | '\u{1ec7}' | '\u{1ec3}' | '\u{1ec5}' => 'e',
        '\u{00c8}' | '\u{00c9}' | '\u{1eb8}' | '\u{1eba}' | '\u{1ebc}' | '\u{00ca}'
        | '\u{1ec0}' | '\u{1ebe}' | '\u{1ec6}' | '\u{1ec2}' | '\u{1ec4}' => 'E',
        '\u{00ec}' | '\u{00ed}' | '\u{1ecb}' | '\u{1ec9}' | '\u{0129}' => 'i',
        '\u{00cc}' | '\u{00cd}' | '\u{1eca}' | '\u{1ec8}' | '\u{0128}' => 'I',
        '\u{00f2}' | '\u{00f3}' | '\u{1ecd}' | '\u{1ecf}' | '\u{00f5}' | '\u{00f4}'
        | '\u{1ed3}' | '\u{1ed1}' | '\u{1ed9}' | '\u{1ed5}' | '\u{1ed7}' | '\u{01a1}'
        | '\u{1edd}' | '\u{1edb}' | '\u{1ee3}' | '\u{1edf}' | '\u{1ee1}' => 'o',
        '\u{00d2}' | '\u{00d3}' | '\u{1ecc}' | '\u{1ece}' | '\u{00d5}' | '\u{00d4}'
        | '\u{1ed2}' | '\u{1ed0}' | '\u{1ed8}' | '\u{1ed4}' | '\u{1ed6}' | '\u{01a0}'
        | '\u{1edc}' | '\u{1eda}' | '\u{1ee2}' | '\u{1ede}' | '\u{1ee0}' => 'O',
        '\u{00f9}' | '\u{00fa}' | '\u{1ee5}' | '\u{1ee7}' | '\u{0169}' | '\u{01b0}'
        | '\u{1eeb}' | '\u{1ee9}' | '\u{1ef1}' | '\u{1eed}' | '\u{1eef}' => 'u',
        '\u{00d9}' | '\u{00da}' | '\u{1ee4}' | '\u{1ee6}' | '\u{0168}' | '\u{01af}'
        | '\u{1eea}' | '\u{1ee8}' | '\u{1ef0}' | '\u{1eec}' | '\u{1eee}' => 'U',
        '\u{1ef3}' | '\u{00fd}' | '\u{1ef5}' | '\u{1ef7}' | '\u{1ef9}' => 'y',
        '\u{1ef2}' | '\u{00dd}' | '\u{1ef4}' | '\u{1ef6}' | '\u{1ef8}' => 'Y',
        '\u{0111}' => 'd',
        '\u{0110}' => 'D',
        _ => value,
    }
}

/// `folded` on every character.
pub open spec fn folded_seq(s: Seq<char>) -> Seq<char> {
    Seq::new(s.len(), |i: int| folded(s[i]))
}

/// The form in which texts are compared: accents folded, then lowercase.
pub open spec fn fold(s: Seq<char>) -> Seq<char> {
    unicode_lowercase(folded_seq(s))
}

/// The accent-folded characters of a text, before the case is lowered.
pub fn fold_accents(value: &str) -> (r: String)
    ensures
        r@ == folded_seq(value@),
{
    let chars = chars_of(value);
    let mut out = String::new();
    let mut i: usize = 0;
    while i < chars.len()
        invariant
            i <= chars.len(),
            chars@ == value@,
            out@ == folded_seq(value@.take(i as int)),
        decreases chars.len() - i,
    {
        out.push(fold_char(chars[i]));
        proof {
            assert(folded_seq(value@.take(i + 1)) =~= folded_seq(value@.take(i as int)).push(
                folded(value@[i as int]),
            ));
        }
        i += 1;
    }
    proof {
        assert(value@.take(value@.len() as int) =~= value@);
    }
    out
}

/// Folds accents and lowers the case.
pub fn fold_text(value: &str) -> (r: String)
    ensures
        r@ == fold(value@),
        all_ascii(folded_seq(value@)) ==> r@ == ascii_lower_seq(folded_seq(value@)),
{
    lowercase_string(&fold_accents(value))
}

// ---------------------------------------------------------------------------
// Sequences of texts
// ---------------------------------------------------------------------------

/// The views of a sequence of strings.
pub open spec fn texts(v: Seq<String>) -> Seq<Seq<char>> {
    Seq::new(v.len(), |i: int| v[i]@)
}

/// A text that may be absent.
pub open spec fn optional(s: Option<String>) -> Option<Seq<char>> {
    match s {
        Some(found) => Some(found@),
        None => None,
    }
}

/// The maximal runs of characters that satisfy `keep`, in order.
pub open spec fn runs(s: Seq<char>, keep: spec_fn(char) -> bool) -> Seq<Seq<char>>
    decreases s.len(),
{
    if s.len() == 0 {
        Seq::empty()
    } else {
        let before = runs(s.drop_last(), keep);
        if !keep(s.last()) {
            before
        } else if s.len() >= 2 && keep(s[s.len() - 2]) {
            before.drop_last().push(before.last().push(s.last()))
        } else {
            before.push(seq![s.last()])
        }
    }
}

/// The texts one after the other with `separator` between them.
pub open spec fn join(parts: Seq<Seq<char>>, separator: Seq<char>) -> Seq<char>
    decreases parts.len(),
{
    if parts.len() == 0 {
        Seq::empty()
    } else if parts.len() == 1 {
        parts[0]
    } else {
        join(parts.drop_last(), separator) + separator + parts.last()
    }
}

/// Splits into the maximal runs of characters that satisfy a predicate.
pub(crate) fn split_runs<F: Fn(char) -> bool>(
    chars: &[char],
    keep: F,
    Ghost(pred): Ghost<spec_fn(char) -> bool>,
) -> (r: Vec<String>)
    requires
        forall|c: char| call_requires(keep, (c,)),
        forall|c: char, b: bool| call_ensures(keep, (c,), b) ==> b == pred(c),
    ensures
        texts(r@) == runs(chars@, pred),
{
    let mut out: Vec<String> = Vec::new();
    let mut current = String::new();
    let mut i: usize = 0;
    while i < chars.len()
        invariant
            i <= chars.len(),
            forall|c: char| call_requires(keep, (c,)),
            forall|c: char, b: bool| call_ensures(keep, (c,), b) ==> b == pred(c),
            current@.len() == 0 ==> texts(out@) == runs(chars@.take(i as int), pred),
            current@.len() > 0 ==> texts(out@).push(current@) == runs(chars@.take(i as int), pred),
            (current@.len() > 0) == (i > 0 && pred(chars@[i - 1])),
        decreases chars.len() - i,
    {
        let c = chars[i];
        let ghost before = chars@.take(i as int);
        let ghost after = chars@.take(i + 1);
        proof {
            assert(after.drop_last() =~= before);
            assert(after.last() == c);
        }
        if keep(c) {
            let ghost old_current = current@;
            current.push(c);
            proof {
                if old_current.len() > 0 {
                    assert(texts(out@).push(old_current).drop_last() =~= texts(out@));
                    assert(after[after.len() - 2] == chars@[i - 1]);
                } else {
                    assert(current@ =~= seq![c]);
                }
            }
        } else if current.as_str().is_empty() {
        } else {
            let ghost old_out = out@;
            let ghost piece = current@;
            out.push(current);
            proof {
                assert(texts(out@) =~= texts(old_out).push(piece));
            }
            current = String::new();
        }
        i += 1;
    }
    proof {
        assert(chars@.take(chars@.len() as int) =~= chars@);
    }
    if !current.as_str().is_empty() {
        let ghost old_out = out@;
        let ghost piece = current@;
        out.push(current);
        proof {
            assert(texts(out@) =~= texts(old_out).push(piece));
        }
    }
    out
}

/// Joins texts with a separator between them.
pub fn join_texts(parts: &[String], separator: &str) -> (r: String)
    ensures
        r@ == join(texts(parts@), separator@),
{
    let mut out = String::new();
    let mut i: usize = 0;
    while i < parts.len()
        invariant
            i <= parts.len(),
            out@ == join(texts(parts@).take(i as int), separator@),
        decreases parts.len() - i,
    {
        if i > 0 {
            out.append(separator);
        }
        out.append(parts[i].as_str());
        proof {
            let next = texts(parts@).take(i + 1);
            assert(next.drop_last() =~= texts(parts@).take(i as int));
            assert(next.last() == parts@[i as int]@);
            if i == 0 {
                assert(texts(parts@).take(0) =~= Seq::<Seq<char>>::empty());
                assert(out@ =~= parts@[0]@);
            }
        }
        i += 1;
    }
    proof {
        assert(texts(parts@).take(parts@.len() as int) =~= texts(parts@));
    }
    out
}

/// The words of a text: its maximal runs without white space.
pub open spec fn words(s: Seq<char>) -> Seq<Seq<char>> {
    runs(s, |c: char| !white_space(c))
}

/// Splits at white space.
pub fn split_whitespace(s: &str) -> (r: Vec<String>)
    ensures
        texts(r@) == words(s@),
{
    let chars = chars_of(s);
    let keep = |c: char| -> (b: bool)
        ensures
            b == !white_space(c),
        { !is_white_space(c) };
    split_runs(chars.as_slice(), keep, Ghost(|c: char| !white_space(c)))
}

/// The alphanumeric runs of a folded text with one space between each.
pub open spec fn searchable_folded(folded_text: Seq<char>) -> Seq<char> {
    join(runs(folded_text, |c: char| unicode_alphanumeric(c) && !white_space(c)), seq![' '])
}

/// The searchable form of a text: folded, with every run of other characters
/// between two alphanumeric ones replaced by one space.
pub open spec fn searchable(s: Seq<char>) -> Seq<char> {
    searchable_folded(fold(s))
}

/// The searchable form of a text that is folded already.
pub fn searchable_folded_text(folded_text: &str) -> (r: String)
    ensures
        r@ == searchable_folded(folded_text@),
{
    let chars = chars_of(folded_text);
    let keep = |c: char| -> (b: bool)
        ensures
            b == (unicode_alphanumeric(c) && !white_space(c)),
        { is_alphanumeric(c) && !is_white_space(c) };
    let parts = split_runs(
        chars.as_slice(),
        keep,
        Ghost(|c: char| unicode_alphanumeric(c) && !white_space(c)),
    );
    let separator = " ";
    proof {
        reveal_strlit(" ");
        assert(separator@ =~= seq![' ']);
    }
    join_texts(parts.as_slice(), separator)
}

/// The searchable form of a text.
pub fn searchable_text(value: &str) -> (r: String)
    ensures
        r@ == searchable(value@),
{
    let folded_text = fold_text(value);
    searchable_folded_text(&folded_text)
}

// ---------------------------------------------------------------------------
// Trimming and searching
// ---------------------------------------------------------------------------

/// Without the white space in front.
pub open spec fn trimmed_start(s: Seq<char>) -> Seq<char>
    decreases s.len(),
{
    if s.len() > 0 && white_space(s[0]) {
        trimmed_start(s.drop_first())
    } else {
        s
    }
}

/// Without the white space at the end.
pub open spec fn trimmed_end(s: Seq<char>) -> Seq<char>
    decreases s.len(),
{
    if s.len() > 0 && white_space(s.last()) {
        trimmed_end(s.drop_last())
    } else {
        s
    }
}

/// Without white space on either side.
pub open spec fn trimmed(s: Seq<char>) -> Seq<char> {
    trimmed_end(trimmed_start(s))
}

/// Trims white space from both sides.
pub fn trim_chars(s: &[char]) -> (r: &[char])
    ensures
        r@ == trimmed(s@),
{
    let mut start: usize = 0;
    proof {
        assert(s@.subrange(0, s@.len() as int) =~= s@);
    }
    while start < s.len() && is_white_space(s[start])
        invariant
            start <= s.len(),
            trimmed_start(s@) == trimmed_start(s@.subrange(start as int, s@.len() as int)),
        decreases s.len() - start,
    {
        proof {
            assert(s@.subrange(start as int, s@.len() as int).drop_first() =~= s@.subrange(
                start + 1,
                s@.len() as int,
            ));
        }
        start += 1;
    }
    let ghost rest = s@.subrange(start as int, s@.len() as int);
    let mut end: usize = s.len();
    while start < end && is_white_space(s[end - 1])
        invariant
            start <= end <= s.len(),
            trimmed_end(rest) == trimmed_end(s@.subrange(start as int, end as int)),
        decreases end,
    {
        proof {
            assert(s@.subrange(start as int, end as int).drop_last() =~= s@.subrange(
                start as int,
                end - 1,
            ));
        }
        end -= 1;
    }
    vstd::slice::slice_subrange(s, start, end)
}

/// Trims white space from both sides.
pub fn trim_text(s: &str) -> (r: String)
    ensures
        r@ == trimmed(s@),
{
    let chars = chars_of(s);
    string_of(trim_chars(chars.as_slice()))
}

/// `needle` stands in `hay` at position `i`.
pub open spec fn occurs_at(hay: Seq<char>, needle: Seq<char>, i: int) -> bool {
    0 <= i && i + needle.len() <= hay.len() && hay.subrange(i, i + needle.len()) == needle
}

/// `needle` stands somewhere in `hay`.
pub open spec fn has_infix(hay: Seq<char>, needle: Seq<char>) -> bool {
    exists|i: int| occurs_at(hay, needle, i)
}

/// `needle` stands at the beginning of `hay`.
pub open spec fn has_prefix(hay: Seq<char>, needle: Seq<char>) -> bool {
    occurs_at(hay, needle, 0)
}

/// `needle` stands at the end of `hay`.
pub open spec fn has_suffix(hay: Seq<char>, needle: Seq<char>) -> bool {
    occurs_at(hay, needle, hay.len() - needle.len())
}

/// Whether `needle` stands in `hay` at position `i`.
pub fn stands_at(hay: &[char], needle: &[char], i: usize) -> (r: bool)
    ensures
        r == occurs_at(hay@, needle@, i as int),
{
    if i > hay.len() || needle.len() > hay.len() - i {
        return false;
    }
    let mut k: usize = 0;
    while k < needle.len()
        invariant
            k <= needle.len(),
            i + needle.len() <= hay.len(),
            forall|m: int| 0 <= m < k ==> hay@[i + m] == needle@[m],
        decreases needle.len() - k,
    {
        if hay[i + k] != needle[k] {
            proof {
                assert(hay@.subrange(i as int, i + needle@.len())[k as int] == hay@[i + k]);
            }
            return false;
        }
        k += 1;
    }
    proof {
        assert(hay@.subrange(i as int, i + needle@.len()) =~= needle@);
    }
    true
}

/// Whether `hay` begins with `needle`.
pub fn begins_with(hay: &[char], needle: &[char]) -> (r: bool)
    ensures
        r == has_prefix(hay@, needle@),
{
    stands_at(hay, needle, 0)
}

/// Whether `hay` ends with `needle`.
pub fn finishes_with(hay: &[char], needle: &[char]) -> (r: bool)
    ensures
        r == has_suffix(hay@, needle@),
{
    if needle.len() > hay.len() {
        return false;
    }
    stands_at(hay, needle, hay.len() - needle.len())
}

/// The first position from `from` on at which `needle` stands in `hay`.
pub fn find_chars(hay: &[char], needle: &[char], from: usize) -> (r: Option<usize>)
    ensures
        match r {
            Some(i) => {
                &&& from <= i
                &&& occurs_at(hay@, needle@, i as int)
                &&& forall|k: int| from <= k < i ==> !occurs_at(hay@, needle@, k)
            },
            None => forall|k: int| from <= k ==> !occurs_at(hay@, needle@, k),
        },
{
    let mut i: usize = from;
    while i <= hay.len() && needle.len() <= hay.len() - i
        invariant
            from <= i,
            forall|k: int| from <= k < i ==> !occurs_at(hay@, needle@, k),
        decreases hay.len() + 1 - i,
    {
        if stands_at(hay, needle, i) {
            return Some(i);
        }
        if i == hay.len() {
            return None;
        }
        i += 1;
    }
    None
}

/// Whether `needle` stands somewhere in `hay`.
pub fn contains_chars(hay: &[char], needle: &[char]) -> (r: bool)
    ensures
        r == has_infix(hay@, needle@),
{
    match find_chars(hay, needle, 0) {
        Some(_) => true,
        None => false,
    }
}

/// Whether a character occurs in a text.
pub fn contains_char(hay: &[char], c: char) -> (r: bool)
    ensures
        r == hay@.contains(c),
{
    let mut i: usize = 0;
    while i < hay.len()
        invariant
            i <= hay.len(),
            forall|k: int| 0 <= k < i ==> hay@[k] != c,
        decreases hay.len() - i,
    {
        if hay[i] == c {
            return true;
        }
        i += 1;
    }
    false
}

// ---------------------------------------------------------------------------
// ASCII case
// ---------------------------------------------------------------------------

/// Equal but for the case of ASCII letters.
pub open spec fn same_ignoring_ascii_case(a: Seq<char>, b: Seq<char>) -> bool {
    ascii_lower_seq(a) == ascii_lower_seq(b)
}

/// Lowers the ASCII letters.
pub fn ascii_lower_chars(s: &[char]) -> (r: Vec<char>)
    ensures
        r@ == ascii_lower_seq(s@),
{
    let mut out: Vec<char> = Vec::new();
    let mut i: usize = 0;
    while i < s.len()
        invariant
            i <= s.len(),
            out@ == ascii_lower_seq(s@.take(i as int)),
        decreases s.len() - i,
    {
        out.push(ascii_lower_char(s[i]));
        proof {
            assert(ascii_lower_seq(s@.take(i + 1)) =~= ascii_lower_seq(s@.take(i as int)).push(
                ascii_lower(s@[i as int]),
            ));
        }
        i += 1;
    }
    proof {
        assert(s@.take(s@.len() as int) =~= s@);
    }
    out
}

/// Whether two texts are equal but for the case of ASCII letters.
pub fn equal_ignoring_ascii_case(a: &[char], b: &[char]) -> (r: bool)
    ensures
        r == same_ignoring_ascii_case(a@, b@),
{
    let x = ascii_lower_chars(a);
    let y = ascii_lower_chars(b);
    same_chars(x.as_slice(), y.as_slice())
}

// ---------------------------------------------------------------------------
// The order of texts
// ---------------------------------------------------------------------------

/// Lexicographic order by code point, which is also the order of the UTF-8
/// bytes.
pub open spec fn text_less(a: Seq<char>, b: Seq<char>) -> bool
    decreases a.len(),
{
    if b.len() == 0 {
        false
    } else if a.len() == 0 {
        true
    } else if a[0] != b[0] {
        a[0] < b[0]
    } else {
        text_less(a.drop_first(), b.drop_first())
    }
}

/// Of two different texts exactly one comes first.
pub proof fn lemma_text_less_total(a: Seq<char>, b: Seq<char>)
    ensures
        a == b ==> !text_less(a, b),
        a != b ==> (text_less(a, b) <==> !text_less(b, a)),
    decreases a.len(),
{
    if a.len() > 0 && b.len() > 0 && a[0] == b[0] {
        lemma_text_less_total(a.drop_first(), b.drop_first());
        if a.drop_first() == b.drop_first() {
            assert(a =~= seq![a[0]] + a.drop_first());
            assert(b =~= seq![b[0]] + b.drop_first());
        }
    } else if a.len() == 0 && b.len() == 0 {
        assert(a =~= b);
    }
}

/// The order of texts is transitive.
pub proof fn lemma_text_less_transitive(a: Seq<char>, b: Seq<char>, c: Seq<char>)
    requires
        text_less(a, b),
        text_less(b, c),
    ensures
        text_less(a, c),
    decreases a.len(),
{
    if a.len() > 0 && a[0] == b[0] && b[0] == c[0] {
        lemma_text_less_transitive(a.drop_first(), b.drop_first(), c.drop_first());
    }
}

/// Whether `a` comes before `b`.
pub fn chars_less(a: &[char], b: &[char]) -> (r: bool)
    ensures
        r == text_less(a@, b@),
{
    let mut i: usize = 0;
    proof {
        assert(a@.skip(0) =~= a@);
        assert(b@.skip(0) =~= b@);
    }
    while i < a.len() && i < b.len()
        invariant
            i <= a.len(),
            i <= b.len(),
            text_less(a@, b@) == text_less(a@.skip(i as int), b@.skip(i as int)),
        decreases a.len() - i,
    {
        proof {
            assert(a@.skip(i as int)[0] == a@[i as int]);
            assert(b@.skip(i as int)[0] == b@[i as int]);
            assert(a@.skip(i as int).drop_first() =~= a@.skip(i + 1));
            assert(b@.skip(i as int).drop_first() =~= b@.skip(i + 1));
        }
        if a[i] != b[i] {
            return a[i] < b[i];
        }
        i += 1;
    }
    i < b.len()
}

// ---------------------------------------------------------------------------
// Decimal notation
// ---------------------------------------------------------------------------

/// The digit character of a value below ten.
pub open spec fn digit_char(d: int) -> char {
    ((0x30 + d) as u32) as char
}

/// A decimal digit.
pub open spec fn is_digit(c: char) -> bool {
    '0' <= c && c <= '9'
}

/// The decimal notation of a natural number.
pub open spec fn decimal_nat(n: nat) -> Seq<char>
    decreases n,
{
    if n < 10 {
        seq![digit_char(n as int)]
    } else {
        decimal_nat(n / 10).push(digit_char((n % 10) as int))
    }
}

/// The decimal notation of an integer.
pub open spec fn decimal(i: int) -> Seq<char> {
    if i < 0 {
        seq!['-'] + decimal_nat((-i) as nat)
    } else {
        decimal_nat(i as nat)
    }
}

/// The value of a run of digits.
pub open spec fn digits_value(s: Seq<char>) -> nat
    decreases s.len(),
{
    if s.len() == 0 {
        0
    } else {
        digits_value(s.drop_last()) * 10 + (s.last() as u32 - 0x30) as nat
    }
}

/// A run of one or more digits.
pub open spec fn all_digits(s: Seq<char>) -> bool {
    s.len() > 0 && forall|i: int| 0 <= i < s.len() ==> is_digit(#[trigger] s[i])
}

/// The natural number that a text notes: digits, with an optional plus sign in
/// front.
pub open spec fn parsed_nat(s: Seq<char>) -> Option<nat> {
    let body = if s.len() > 0 && s[0] == '+' {
        s.drop_first()
    } else {
        s
    };
    if all_digits(body) {
        Some(digits_value(body))
    } else {
        None
    }
}

/// The integer that a text notes: digits, with an optional sign in front.
pub open spec fn parsed_int(s: Seq<char>) -> Option<int> {
    if s.len() > 0 && s[0] == '-' {
        if all_digits(s.drop_first()) {
            Some(-(digits_value(s.drop_first()) as int))
        } else {
            None
        }
    } else {
        match parsed_nat(s) {
            Some(n) => Some(n as int),
            None => None,
        }
    }
}

fn digit_of(d: u64) -> (r: char)
    requires
        d < 10,
    ensures
        r == digit_char(d as int),
{
    match d {
        0 => '0',
        1 => '1',
        2 => '2',
        3 => '3',
        4 => '4',
        5 => '5',
        6 => '6',
        7 => '7',
        8 => '8',
        _ => '9',
    }
}

/// Appends the decimal notation of a number.
pub fn append_decimal(out: &mut String, n: u64)
    ensures
        final(out)@ == old(out)@ + decimal_nat(n as nat),
    decreases n,
{
    if n >= 10 {
        append_decimal(out, n / 10);
    }
    out.push(digit_of(n % 10));
    proof {
        assert(out@ =~= old(out)@ + decimal_nat(n as nat));
    }
}

/// The decimal notation of an unsigned number.
pub fn decimal_u64(n: u64) -> (r: String)
    ensures
        r@ == decimal(n as int),
{
    let mut out = String::new();
    append_decimal(&mut out, n);
    proof {
        assert(out@ =~= decimal_nat(n as nat));
    }
    out
}

/// The decimal notation of a signed number.
pub fn decimal_i64(i: i64) -> (r: String)
    ensures
        r@ == decimal(i as int),
{
    let mut out = String::new();
    if i < 0 {
        out.push('-');
        let magnitude: u64 = (-(i as i128)) as u64;
        append_decimal(&mut out, magnitude);
        proof {
            assert(out@ =~= seq!['-'] + decimal_nat((-i) as nat));
        }
    } else {
        append_decimal(&mut out, i as u64);
        proof {
            assert(out@ =~= decimal_nat(i as nat));
        }
    }
    out
}

/// The value of a run of digits, or nothing where the text is no such run or
/// the value is above `u64::MAX`.
fn parse_digits(s: &[char]) -> (r: Option<u64>)
    ensures
        r == (if all_digits(s@) && digits_value(s@) <= u64::MAX {
            Some(digits_value(s@) as u64)
        } else {
            None::<u64>
        }),
{
    if s.len() == 0 {
        return None;
    }
    let mut value: u64 = 0;
    let mut fits = true;
    let mut i: usize = 0;
    while i < s.len()
        invariant
            i <= s.len(),
            forall|k: int| 0 <= k < i ==> is_digit(#[trigger] s@[k]),
            fits ==> value == digits_value(s@.take(i as int)),
            !fits ==> digits_value(s@.take(i as int)) > u64::MAX,
        decreases s.len() - i,
    {
        let c = s[i];
        if c < '0' || '9' < c {
            proof {
                assert(!is_digit(s@[i as int]));
            }
            return None;
        }
        proof {
            assert(s@.take(i + 1).drop_last() =~= s@.take(i as int));
            assert(s@.take(i + 1).last() == c);
        }
        if fits {
            let next: u128 = (value as u128) * 10 + ((c as u32) - 0x30) as u128;
            if next <= u64::MAX as u128 {
                value = next as u64;
            } else {
                fits = false;
            }
        }
        i += 1;
    }
    proof {
        assert(s@.take(s@.len() as int) =~= s@);
    }
    if fits {
        Some(value)
    } else {
        None
    }
}

/// Reads an unsigned number.
pub fn parse_u64(s: &[char]) -> (r: Option<u64>)
    ensures
        r == (match parsed_nat(s@) {
            Some(n) => if n <= u64::MAX {
                Some(n as u64)
            } else {
                None
            },
            None => None::<u64>,
        }),
{
    if s.len() > 0 && s[0] == '+' {
        proof {
            assert(s@.subrange(1, s@.len() as int) =~= s@.drop_first());
        }
        parse_digits(vstd::slice::slice_subrange(s, 1, s.len()))
    } else {
        parse_digits(s)
    }
}

/// Reads an unsigned number of pointer size.
pub fn parse_usize(s: &[char]) -> (r: Option<usize>)
    ensures
        r == (match parsed_nat(s@) {
            Some(n) => if n <= usize::MAX {
                Some(n as usize)
            } else {
                None
            },
            None => None::<usize>,
        }),
{
    match parse_u64(s) {
        Some(n) => if n <= usize::MAX as u64 {
            Some(n as usize)
        } else {
            None
        },
        None => None,
    }
}

/// Reads a signed number of 32 bits.
pub fn parse_i32(s: &[char]) -> (r: Option<i32>)
    ensures
        r == (match parsed_int(s@) {
            Some(n) => if i32::MIN <= n <= i32::MAX {
                Some(n as i32)
            } else {
                None
            },
            None => None::<i32>,
        }),
{
    if s.len() > 0 && s[0] == '-' {
        proof {
            assert(s@.subrange(1, s@.len() as int) =~= s@.drop_first());
        }
        match parse_digits(vstd::slice::slice_subrange(s, 1, s.len())) {
            Some(n) => if n <= 0x8000_0000 {
                Some((-(n as i64)) as i32)
            } else {
                None
            },
            None => None,
        }
    } else {
        match parse_u64(s) {
            Some(n) => if n <= 0x7fff_ffff {
                Some(n as i32)
            } else {
                None
            },
            None => None,
        }
    }
}

/// Reading the digits of a number gives the number back.
pub proof fn lemma_digits_round_trip(n: nat)
    ensures
        all_digits(decimal_nat(n)),
        digits_value(decimal_nat(n)) == n,
    decreases n,
{
    if n < 10 {
        assert(decimal_nat(n).drop_last() =~= Seq::<char>::empty());
        assert(digits_value(Seq::<char>::empty()) == 0);
        assert(decimal_nat(n).last() == digit_char(n as int));
    } else {
        lemma_digits_round_trip(n / 10);
        let s = decimal_nat(n);
        assert(s.drop_last() =~= decimal_nat(n / 10));
        assert(s.last() == digit_char((n % 10) as int));
        assert forall|i: int| 0 <= i < s.len() implies is_digit(#[trigger] s[i]) by {
            if i < s.len() - 1 {
                assert(s[i] == decimal_nat(n / 10)[i]);
            }
        }
    }
}

/// Reading the notation of an integer gives the integer back.
pub proof fn lemma_decimal_round_trip(i: int)
    ensures
        parsed_int(decimal(i)) == Some(i),
{
    if i < 0 {
        lemma_digits_round_trip((-i) as nat);
        assert(decimal(i).drop_first() =~= decimal_nat((-i) as nat));
    } else {
        lemma_digits_round_trip(i as nat);
        assert(is_digit(decimal(i)[0]));
    }
}

// ---------------------------------------------------------------------------
// Lines
// ---------------------------------------------------------------------------

/// One line without the carriage return that may end it.
pub open spec fn without_carriage_return(line: Seq<char>) -> Seq<char> {
    if line.len() > 0 && line.last() == '\r' {
        line.drop_last()
    } else {
        line
    }
}

/// The pieces between separator characters; a text without one is one piece.
pub open spec fn pieces(s: Seq<char>, separator: char) -> Seq<Seq<char>>
    decreases s.len(),
{
    if s.len() == 0 {
        seq![Seq::empty()]
    } else {
        let before = pieces(s.drop_last(), separator);
        if s.last() == separator {
            before.push(Seq::empty())
        } else {
            before.drop_last().push(before.last().push(s.last()))
        }
    }
}

/// The lines of a text: the pieces between newlines, each without a carriage
/// return at its end, and without an empty piece behind the last newline.
pub open spec fn lines(s: Seq<char>) -> Seq<Seq<char>> {
    let all = pieces(s, '\n');
    let kept = if all.last().len() == 0 {
        all.drop_last()
    } else {
        all
    };
    Seq::new(
        kept.len(),
        |i: int|
            if i < all.len() - 1 {
                without_carriage_return(kept[i])
            } else {
                kept[i]
            },
    )
}

/// Splits at every separator character.
pub fn split_pieces(chars: &[char], separator: char) -> (r: Vec<String>)
    ensures
        texts(r@) == pieces(chars@, separator),
        r@.len() > 0,
{
    let mut out: Vec<String> = Vec::new();
    let mut current = String::new();
    let mut i: usize = 0;
    proof {
        assert(texts(out@).push(current@) =~= pieces(chars@.take(0), separator));
    }
    while i < chars.len()
        invariant
            i <= chars.len(),
            texts(out@).push(current@) == pieces(chars@.take(i as int), separator),
        decreases chars.len() - i,
    {
        let c = chars[i];
        let ghost after = chars@.take(i + 1);
        let ghost old_out = out@;
        let ghost old_current = current@;
        proof {
            assert(after.drop_last() =~= chars@.take(i as int));
            assert(after.last() == c);
            assert(texts(old_out).push(old_current).drop_last() =~= texts(old_out));
        }
        if c == separator {
            out.push(current);
            current = String::new();
            proof {
                assert(texts(out@) =~= texts(old_out).push(old_current));
            }
        } else {
            current.push(c);
        }
        i += 1;
    }
    let ghost old_out = out@;
    let ghost piece = current@;
    out.push(current);
    proof {
        assert(chars@.take(chars@.len() as int) =~= chars@);
        assert(texts(out@) =~= texts(old_out).push(piece));
    }
    out
}

/// There is at least one piece.
pub proof fn lemma_pieces_nonempty(s: Seq<char>, separator: char)
    ensures
        pieces(s, separator).len() > 0,
    decreases s.len(),
{
    if s.len() > 0 {
        lemma_pieces_nonempty(s.drop_last(), separator);
    }
}

/// Splits into lines.
pub fn split_lines(s: &str) -> (r: Vec<String>)
    ensures
        texts(r@) == lines(s@),
{
    let chars = chars_of(s);
    let all = split_pieces(chars.as_slice(), '\n');
    let ghost whole = texts(all@);
    let last: usize = all.len() - 1;
    let count: usize = if all[last].as_str().is_empty() {
        last
    } else {
        all.len()
    };
    let mut out: Vec<String> = Vec::new();
    let mut i: usize = 0;
    while i < count
        invariant
            i <= count,
            texts(all@) == pieces(s@, '\n'),
            all@.len() > 0,
            last == all@.len() - 1,
            count == lines(s@).len(),
            count <= all@.len(),
            texts(out@) == lines(s@).take(i as int),
        decreases count - i,
    {
        let piece = chars_of(all[i].as_str());
        let ghost old_out = out@;
        proof {
            assert(piece@ == pieces(s@, '\n')[i as int]) by {
                assert(texts(all@)[i as int] == all@[i as int]@);
            }
        }
        let line = if i < last && piece.len() > 0 && piece[piece.len() - 1] == '\r' {
            let short = string_of(vstd::slice::slice_subrange(piece.as_slice(), 0, piece.len() - 1));
            proof {
                assert(short@ =~= piece@.drop_last());
            }
            short
        } else {
            string_of(piece.as_slice())
        };
        let ghost text = line@;
        out.push(line);
        proof {
            assert(text == lines(s@)[i as int]);
            assert(texts(out@) =~= texts(old_out).push(text));
            assert(lines(s@).take(i + 1) =~= lines(s@).take(i as int).push(text));
        }
        i += 1;
    }
    proof {
        assert(lines(s@).take(count as int) =~= lines(s@));
    }
    out
}

// ---------------------------------------------------------------------------
// Byte offsets
// ---------------------------------------------------------------------------

/// The byte at which the character at position `p` begins in UTF-8.
pub open spec fn byte_offset(s: Seq<char>, p: int) -> nat {
    encode_utf8(s.take(p)).len()
}

/// UTF-8 encodes a concatenation piece by piece.
pub proof fn lemma_encode_concat(a: Seq<char>, b: Seq<char>)
    ensures
        encode_utf8(a + b) == encode_utf8(a) + encode_utf8(b),
    decreases a.len(),
{
    if a.len() == 0 {
        assert(a + b =~= b);
        assert(encode_utf8(a) + encode_utf8(b) =~= encode_utf8(b));
    } else {
        assert((a + b).drop_first() =~= a.drop_first() + b);
        lemma_encode_concat(a.drop_first(), b);
        assert(encode_utf8(a + b) =~= encode_utf8(a) + encode_utf8(b));
    }
}

proof fn lemma_byte_offset_step(s: Seq<char>, p: int)
    requires
        0 <= p < s.len(),
    ensures
        byte_offset(s, p + 1) == byte_offset(s, p) + encode_scalar(s[p] as u32).len(),
        byte_offset(s, p + 1) <= encode_utf8(s).len(),
{
    let one = seq![s[p]];
    assert(s.take(p + 1) =~= s.take(p) + one);
    lemma_encode_concat(s.take(p), one);
    assert(one.drop_first() =~= Seq::<char>::empty());
    assert(encode_utf8(one.drop_first()) =~= Seq::<u8>::empty());
    assert(encode_utf8(one) == encode_scalar(one[0] as u32) + encode_utf8(one.drop_first()));
    assert(encode_utf8(one) =~= encode_scalar(s[p] as u32));
    assert(s =~= s.take(p + 1) + s.skip(p + 1));
    lemma_encode_concat(s.take(p + 1), s.skip(p + 1));
}

/// An ASCII character takes one byte.
pub proof fn lemma_encode_push_ascii(s: Seq<char>, c: char)
    requires
        is_ascii_char(c),
    ensures
        encode_utf8(s.push(c)).len() == encode_utf8(s).len() + 1,
{
    let whole = s.push(c);
    lemma_byte_offset_step(whole, s.len() as int);
    assert(whole.take(s.len() as int) =~= s);
    assert(whole.take(s.len() as int + 1) =~= whole);
}

/// The number of bytes of a character in UTF-8.
pub fn utf8_width(c: char) -> (r: usize)
    ensures
        r == encode_scalar(c as u32).len(),
        1 <= r <= 4,
{
    proof {
        char_is_scalar(c);
    }
    let u: u32 = c as u32;
    if u <= 0x7f {
        1
    } else if u <= 0x7ff {
        2
    } else if u <= 0xffff {
        3
    } else {
        4
    }
}

/// The byte offset of every character.
pub fn byte_offsets(s: &str) -> (r: Vec<usize>)
    ensures
        r@.len() == s@.len(),
        forall|i: int| 0 <= i < s@.len() ==> #[trigger] r@[i] == byte_offset(s@, i),
{
    let chars = chars_of(s);
    let bytes = s.as_bytes();
    let limit: usize = bytes.len();
    let mut out: Vec<usize> = Vec::new();
    let mut at: usize = 0;
    let mut i: usize = 0;
    proof {
        assert(s@.take(0) =~= Seq::<char>::empty());
    }
    while i < chars.len()
        invariant
            i <= chars.len(),
            chars@ == s@,
            limit == encode_utf8(s@).len(),
            out@.len() == i,
            at == byte_offset(s@, i as int),
            forall|k: int| 0 <= k < i ==> #[trigger] out@[k] == byte_offset(s@, k),
        decreases chars.len() - i,
    {
        out.push(at);
        proof {
            lemma_byte_offset_step(s@, i as int);
        }
        at += utf8_width(chars[i]);
        i += 1;
    }
    out
}

// ---------------------------------------------------------------------------
// Lists of texts
// ---------------------------------------------------------------------------

/// Whether a list holds a text.
pub fn contains_text(list: &[String], s: &str) -> (r: bool)
    ensures
        r == texts(list@).contains(s@),
{
    let mut i: usize = 0;
    while i < list.len()
        invariant
            i <= list.len(),
            forall|k: int| 0 <= k < i ==> texts(list@)[k] != s@,
        decreases list.len() - i,
    {
        if same_text(list[i].as_str(), s) {
            proof {
                assert(texts(list@)[i as int] == s@);
            }
            return true;
        }
        i += 1;
    }
    false
}

// ---------------------------------------------------------------------------
// Trimming keeps the words
// ---------------------------------------------------------------------------

proof fn lemma_trimmed_start(s: Seq<char>)
    ensures
        trimmed_start(s).len() > 0 ==> !white_space(trimmed_start(s)[0]),
        trimmed_start(s).len() <= s.len(),
    decreases s.len(),
{
    if s.len() > 0 && white_space(s[0]) {
        lemma_trimmed_start(s.drop_first());
    }
}

proof fn lemma_trimmed_end(s: Seq<char>)
    ensures
        trimmed_end(s).len() > 0 ==> !white_space(trimmed_end(s).last()),
        trimmed_end(s).len() > 0 ==> trimmed_end(s)[0] == s[0],
        trimmed_end(s).len() <= s.len(),
    decreases s.len(),
{
    if s.len() > 0 && white_space(s.last()) {
        lemma_trimmed_end(s.drop_last());
    }
}

/// Trimming twice is trimming once.
pub proof fn lemma_trimmed_idempotent(s: Seq<char>)
    ensures
        trimmed(trimmed(s)) == trimmed(s),
{
    lemma_trimmed_start(s);
    lemma_trimmed_end(trimmed_start(s));
}

proof fn lemma_runs_front(s: Seq<char>, keep: spec_fn(char) -> bool)
    requires
        s.len() > 0,
        !keep(s[0]),
    ensures
        runs(s, keep) == runs(s.drop_first(), keep),
    decreases s.len(),
{
    if s.len() == 1 {
        assert(s.drop_last() =~= Seq::<char>::empty());
        assert(s.drop_first() =~= Seq::<char>::empty());
    } else {
        lemma_runs_front(s.drop_last(), keep);
        assert(s.drop_last().drop_first() =~= s.drop_first().drop_last());
        assert(s.drop_first().last() == s.last());
        if s.len() > 2 {
            assert(s.drop_first()[s.len() - 3] == s[s.len() - 2]);
        }
    }
}

proof fn lemma_words_trimmed_start(s: Seq<char>)
    ensures
        words(trimmed_start(s)) == words(s),
    decreases s.len(),
{
    if s.len() > 0 && white_space(s[0]) {
        lemma_runs_front(s, |c: char| !white_space(c));
        lemma_words_trimmed_start(s.drop_first());
    }
}

proof fn lemma_words_trimmed_end(s: Seq<char>)
    ensures
        words(trimmed_end(s)) == words(s),
    decreases s.len(),
{
    if s.len() > 0 && white_space(s.last()) {
        lemma_words_trimmed_end(s.drop_last());
    }
}

/// Trimming a text leaves its words as they are.
pub proof fn lemma_words_trimmed(s: Seq<char>)
    ensures
        words(trimmed(s)) == words(s),
{
    lemma_words_trimmed_start(s);
    lemma_words_trimmed_end(trimmed_start(s));
}

// ---------------------------------------------------------------------------
// Concatenation
// ---------------------------------------------------------------------------

/// Two texts in a row.
pub fn cat2(a: &str, b: &str) -> (r: String)
    ensures
        r@ == a@ + b@,
{
    let mut out = a.to_owned();
    out.append(b);
    out
}

/// Three texts in a row.
pub fn cat3(a: &str, b: &str, c: &str) -> (r: String)
    ensures
        r@ == a@ + b@ + c@,
{
    let mut out = a.to_owned();
    out.append(b);
    out.append(c);
    out
}

/// Four texts in a row.
pub fn cat4(a: &str, b: &str, c: &str, d: &str) -> (r: String)
    ensures
        r@ == a@ + b@ + c@ + d@,
{
    let mut out = a.to_owned();
    out.append(b);
    out.append(c);
    out.append(d);
    out
}

/// Five texts in a row.
pub fn cat5(a: &str, b: &str, c: &str, d: &str, e: &str) -> (r: String)
    ensures
        r@ == a@ + b@ + c@ + d@ + e@,
{
    let mut out = a.to_owned();
    out.append(b);
    out.append(c);
    out.append(d);
    out.append(e);
    out
}

/// Six texts in a row.
pub fn cat6(a: &str, b: &str, c: &str, d: &str, e: &str, f: &str) -> (r: String)
    ensures
        r@ == a@ + b@ + c@ + d@ + e@ + f@,
{
    let mut out = a.to_owned();
    out.append(b);
    out.append(c);
    out.append(d);
    out.append(e);
    out.append(f);
    out
}

/// Seven texts in a row.
pub fn cat7(a: &str, b: &str, c: &str, d: &str, e: &str, f: &str, g: &str) -> (r: String)
    ensures
        r@ == a@ + b@ + c@ + d@ + e@ + f@ + g@,
{
    let mut out = a.to_owned();
    out.append(b);
    out.append(c);
    out.append(d);
    out.append(e);
    out.append(f);
    out.append(g);
    out
}

// ---------------------------------------------------------------------------
// From byte offsets back to positions
// ---------------------------------------------------------------------------

/// A later character begins at a later byte.
pub proof fn lemma_byte_offset_increases(s: Seq<char>, p: int, q: int)
    requires
        0 <= p < q <= s.len(),
    ensures
        byte_offset(s, p) < byte_offset(s, q),
    decreases q - p,
{
    lemma_byte_offset_step(s, q - 1);
    char_is_scalar(s[q - 1]);
    if p < q - 1 {
        lemma_byte_offset_increases(s, p, q - 1);
    }
}

/// The position of the character that begins at a byte.
pub(crate) fn position_of_byte(s: &str, byte: usize, Ghost(p): Ghost<int>) -> (r: usize)
    requires
        0 <= p < s@.len(),
        byte == byte_offset(s@, p),
    ensures
        r == p,
{
    let offsets = byte_offsets(s);
    let mut k: usize = 0;
    while k < offsets.len() && offsets[k] != byte
        invariant
            k <= p < s@.len(),
            offsets@.len() == s@.len(),
            byte == byte_offset(s@, p),
            forall|i: int| 0 <= i < s@.len() ==> #[trigger] offsets@[i] == byte_offset(s@, i),
        decreases offsets.len() - k,
    {
        k += 1;
    }
    proof {
        if k < p {
            lemma_byte_offset_increases(s@, k as int, p);
        }
    }
    k
}

/// Reads a signed number of pointer size.
pub fn parse_isize(s: &[char]) -> (r: Option<isize>)
    ensures
        r == (match parsed_int(s@) {
            Some(n) => if isize::MIN <= n <= isize::MAX {
                Some(n as isize)
            } else {
                None
            },
            None => None::<isize>,
        }),
{
    if s.len() > 0 && s[0] == '-' {
        proof {
            assert(s@.subrange(1, s@.len() as int) =~= s@.drop_first());
        }
        match parse_digits(vstd::slice::slice_subrange(s, 1, s.len())) {
            Some(n) => {
                let value: i128 = -(n as i128);
                if value >= isize::MIN as i128 {
                    Some(value as isize)
                } else {
                    None
                }
            },
            None => None,
        }
    } else {
        match parse_u64(s) {
            Some(n) => if n <= isize::MAX as u64 {
                Some(n as isize)
            } else {
                None
            },
            None => None,
        }
    }
}

/// Whether two lists hold the same texts.
pub fn same_texts(a: &[String], b: &[String]) -> (r: bool)
    ensures
        r == (texts(a@) == texts(b@)),
{
    let ghost x = texts(a@);
    let ghost y = texts(b@);
    if a.len() != b.len() {
        proof {
            assert(x.len() != y.len());
        }
        return false;
    }
    let mut i: usize = 0;
    while i < a.len()
        invariant
            i <= a.len(),
            a@.len() == b@.len(),
            x == texts(a@),
            y == texts(b@),
            forall|k: int| 0 <= k < i ==> x[k] == y[k],
        decreases a.len() - i,
    {
        if !same_text(a[i].as_str(), b[i].as_str()) {
            proof {
                assert(x[i as int] != y[i as int]);
            }
            return false;
        }
        i += 1;
    }
    proof {
        assert(x =~= y);
    }
    true
}

// ---------------------------------------------------------------------------
// Texts that stay as they are
// ---------------------------------------------------------------------------

/// A text without white space at its ends stays as it is when it is trimmed.
pub proof fn lemma_trimmed_stays(s: Seq<char>)
    requires
        s.len() == 0 || (!white_space(s[0]) && !white_space(s.last())),
    ensures
        trimmed(s) == s,
{
}

/// A text that stays as it is when it is trimmed has no white space at its ends.
pub proof fn lemma_trimmed_ends(s: Seq<char>)
    requires
        trimmed(s) == s,
        s.len() > 0,
    ensures
        !white_space(s[0]),
        !white_space(s.last()),
{
    lemma_trimmed_start(s);
    lemma_trimmed_end(trimmed_start(s));
}

/// Lines, each with a line break behind it.
pub open spec fn terminated(all: Seq<Seq<char>>) -> Seq<char>
    decreases all.len(),
{
    if all.len() == 0 {
        Seq::empty()
    } else {
        terminated(all.drop_last()) + all.last() + seq!['\n']
    }
}

/// A line without a line break in it and without a carriage return at its end.
pub open spec fn is_plain_line(s: Seq<char>) -> bool {
    !s.contains('\n') && (s.len() == 0 || s.last() != '\r')
}

/// The pieces of a text that something without a separator was put behind.
pub proof fn lemma_pieces_add(a: Seq<char>, b: Seq<char>, separator: char)
    requires
        !b.contains(separator),
    ensures
        pieces(a + b, separator) == pieces(a, separator).drop_last().push(
            pieces(a, separator).last() + b,
        ),
    decreases b.len(),
{
    lemma_pieces_nonempty(a, separator);
    if b.len() == 0 {
        assert(a + b =~= a);
        assert(pieces(a, separator).last() + b =~= pieces(a, separator).last());
        assert(pieces(a, separator).drop_last().push(pieces(a, separator).last()) =~= pieces(
            a,
            separator,
        ));
    } else {
        let shorter = b.drop_last();
        assert(b.contains(b.last()));
        assert(!shorter.contains(separator)) by {
            if shorter.contains(separator) {
                let i = choose|i: int| 0 <= i < shorter.len() && shorter[i] == separator;
                assert(b[i] == separator);
            }
        }
        lemma_pieces_add(a, shorter, separator);
        assert((a + b).drop_last() =~= a + shorter);
        let last = pieces(a, separator).last();
        assert((last + shorter).push(b.last()) =~= last + b);
        assert(pieces(a, separator).drop_last().push(last + shorter).drop_last() =~= pieces(
            a,
            separator,
        ).drop_last());
    }
}

proof fn lemma_pieces_terminated(all: Seq<Seq<char>>)
    requires
        forall|i: int| 0 <= i < all.len() ==> !(#[trigger] all[i]).contains('\n'),
    ensures
        pieces(terminated(all), '\n') == all.push(Seq::empty()),
    decreases all.len(),
{
    if all.len() == 0 {
        assert(pieces(terminated(all), '\n') =~= all.push(Seq::empty()));
    } else {
        let before = all.drop_last();
        let line = all.last();
        lemma_pieces_terminated(before);
        lemma_pieces_add(terminated(before), line, '\n');
        let s = terminated(all);
        assert(s.drop_last() =~= terminated(before) + line);
        assert(s.last() == '\n');
        assert(before.push(Seq::empty()).drop_last() =~= before);
        assert(Seq::<char>::empty() + line =~= line);
        assert(before.push(line) =~= all);
        assert(pieces(s, '\n') =~= all.push(Seq::empty()));
    }
}

/// Lines that are written one below the other are read back.
pub proof fn lemma_lines_round_trip(all: Seq<Seq<char>>)
    requires
        forall|i: int| 0 <= i < all.len() ==> is_plain_line(#[trigger] all[i]),
    ensures
        lines(terminated(all)) == all,
{
    assert forall|i: int| 0 <= i < all.len() implies !(#[trigger] all[i]).contains('\n') by {
        assert(is_plain_line(all[i]));
    }
    lemma_pieces_terminated(all);
    let found = pieces(terminated(all), '\n');
    assert(found.drop_last() =~= all);
    assert forall|i: int| 0 <= i < all.len() implies lines(terminated(all))[i] == all[i] by {
        assert(is_plain_line(all[i]));
    }
    assert(lines(terminated(all)) =~= all);
}

/// Lines, each with a carriage return at its end.
spec fn with_returns(all: Seq<Seq<char>>) -> Seq<Seq<char>> {
    Seq::new(all.len(), |i: int| all[i].push('\r'))
}

proof fn lemma_joined_with_returns(all: Seq<Seq<char>>)
    requires
        all.len() > 0,
    ensures
        join(all, "\r\n"@) + "\r\n"@ == terminated(with_returns(all)),
    decreases all.len(),
{
    reveal_strlit("\r\n");
    assert("\r\n"@ =~= seq!['\r', '\n']);
    let before = all.drop_last();
    assert(with_returns(all).drop_last() =~= with_returns(before));
    assert(with_returns(all).last() =~= all.last().push('\r'));
    let end = all.last().push('\r') + seq!['\n'];
    assert(all.last() + "\r\n"@ =~= end);
    if all.len() == 1 {
        assert(terminated(with_returns(before)) =~= Seq::<char>::empty());
        assert(terminated(with_returns(all)) =~= end);
    } else {
        lemma_joined_with_returns(before);
        assert(join(all, "\r\n"@) + "\r\n"@ =~= terminated(with_returns(before)) + end);
        assert(terminated(with_returns(all)) =~= terminated(with_returns(before)) + end);
    }
}

/// Lines with the line breaks of a settings file are read back.
pub proof fn lemma_returned_lines_round_trip(all: Seq<Seq<char>>)
    requires
        all.len() > 0,
        forall|i: int| 0 <= i < all.len() ==> !(#[trigger] all[i]).contains('\n'),
    ensures
        lines(join(all, "\r\n"@) + "\r\n"@) == all,
{
    lemma_joined_with_returns(all);
    let ended = with_returns(all);
    assert forall|i: int| 0 <= i < ended.len() implies !(#[trigger] ended[i]).contains('\n') by {
        if ended[i].contains('\n') {
            let k = choose|k: int| 0 <= k < ended[i].len() && ended[i][k] == '\n';
            assert(k < all[i].len());
            assert(all[i][k] == '\n');
        }
    }
    lemma_pieces_terminated(ended);
    let found = pieces(terminated(ended), '\n');
    assert(found.drop_last() =~= ended);
    assert forall|i: int| 0 <= i < all.len() implies lines(terminated(ended))[i] == all[i] by {
        assert(ended[i].drop_last() =~= all[i]);
    }
    assert(lines(terminated(ended)) =~= all);
}


/// White space around a text is all that trimming takes away.
pub proof fn lemma_trimmed_padded(s: Seq<char>)
    requires
        s.len() > 0,
        !white_space(s[0]) && !white_space(s.last()),
    ensures
        trimmed(s.push(' ')) == s,
        trimmed(seq![' '] + s) == s,
        trimmed((seq![' '] + s).push(' ')) == s,
{
    let before = seq![' '] + s;
    assert(before.drop_first() =~= s);
    assert(before.push(' ').drop_first() =~= s.push(' '));
    assert(s.push(' ').drop_last() =~= s);
    assert(s.push(' ')[0] == s[0]);
    lemma_trimmed_stays(s);
    assert(trimmed_start(s) == s);
    assert(trimmed_start(before) == s);
    assert(trimmed_start(s.push(' ')) == s.push(' '));
    assert(trimmed_end(s.push(' ')) == trimmed_end(s));
    assert(trimmed_start(before.push(' ')) == s.push(' '));
}

/// A notation of an integer is made of digits behind a sign or none.
pub proof fn lemma_decimal_chars(i: int)
    ensures
        decimal(i).len() > 0,
        forall|k: int|
            0 <= k < decimal(i).len() ==> is_digit(#[trigger] decimal(i)[k]) || decimal(i)[k] == '-',
{
    if i < 0 {
        lemma_digits_round_trip((-i) as nat);
        assert(decimal(i).drop_first() =~= decimal_nat((-i) as nat));
        assert forall|k: int| 0 <= k < decimal(i).len() implies is_digit(#[trigger] decimal(i)[k])
            || decimal(i)[k] == '-' by {
            if k > 0 {
                assert(decimal(i)[k] == decimal_nat((-i) as nat)[k - 1]);
            }
        }
    } else {
        lemma_digits_round_trip(i as nat);
    }
}

/// The runs of a text that a run was put behind.
pub proof fn lemma_runs_add(a: Seq<char>, b: Seq<char>, keep: spec_fn(char) -> bool)
    requires
        a.len() == 0 || !keep(a.last()),
        b.len() > 0,
        forall|i: int| 0 <= i < b.len() ==> keep(#[trigger] b[i]),
    ensures
        runs(a + b, keep) == runs(a, keep).push(b),
    decreases b.len(),
{
    let all = a + b;
    assert(all.last() == b.last());
    assert(keep(b[b.len() - 1]));
    if b.len() == 1 {
        assert(all.drop_last() =~= a);
        assert(b =~= seq![b.last()]);
        if all.len() >= 2 {
            assert(all[all.len() - 2] == a.last());
        }
    } else {
        let shorter = b.drop_last();
        assert forall|i: int| 0 <= i < shorter.len() implies keep(#[trigger] shorter[i]) by {
            assert(shorter[i] == b[i]);
        }
        lemma_runs_add(a, shorter, keep);
        assert(all.drop_last() =~= a + shorter);
        assert(all[all.len() - 2] == b[b.len() - 2]);
        assert(shorter.push(b.last()) =~= b);
        assert(runs(a, keep).push(shorter).drop_last() =~= runs(a, keep));
    }
}

/// Runs with a separator between any two are found again.
pub proof fn lemma_runs_joined(parts: Seq<Seq<char>>, separator: char, keep: spec_fn(char) -> bool)
    requires
        !keep(separator),
        forall|i: int| 0 <= i < parts.len() ==> (#[trigger] parts[i]).len() > 0,
        forall|i: int, k: int|
            0 <= i < parts.len() && 0 <= k < parts[i].len() ==> keep(#[trigger] parts[i][k]),
    ensures
        runs(join(parts, seq![separator]), keep) == parts,
    decreases parts.len(),
{
    if parts.len() == 0 {
        assert(runs(join(parts, seq![separator]), keep) =~= parts);
    } else {
        let before = parts.drop_last();
        let last = parts.last();
        let e = Seq::<char>::empty();
        assert forall|k: int| 0 <= k < last.len() implies keep(#[trigger] last[k]) by {
            assert(keep(parts[parts.len() - 1][k]));
        }
        if parts.len() == 1 {
            lemma_runs_add(e, last, keep);
            assert(e + last =~= last);
            assert(runs(e, keep).push(last) =~= parts);
        } else {
            assert forall|i: int| 0 <= i < before.len() implies (#[trigger] before[i]).len() > 0 by {
                assert(before[i] == parts[i]);
            }
            assert forall|i: int, k: int|
                0 <= i < before.len() && 0 <= k < before[i].len() implies keep(
                #[trigger] before[i][k],
            ) by {
                assert(before[i][k] == parts[i][k]);
            }
            lemma_runs_joined(before, separator, keep);
            let a = join(before, seq![separator]) + seq![separator];
            assert(a.drop_last() =~= join(before, seq![separator]));
            lemma_runs_add(a, last, keep);
            assert(before.push(last) =~= parts);
        }
    }
}


/// Lines with a line break between any two and one behind the last are lines with one
/// behind each.
pub proof fn lemma_joined_lines(items: Seq<Seq<char>>)
    requires
        items.len() > 0,
    ensures
        join(items, "\n"@) + "\n"@ == terminated(items),
    decreases items.len(),
{
    reveal_strlit("\n");
    assert("\n"@ =~= seq!['\n']);
    let before = items.drop_last();
    if items.len() == 1 {
        assert(terminated(before) =~= Seq::<char>::empty());
        assert(terminated(before) + items.last() =~= items[0]);
    } else {
        lemma_joined_lines(before);
    }
}

/// The lines of a text that ends without a line break.
proof fn lemma_open_end(ended: Seq<Seq<char>>, last: Seq<char>)
    requires
        forall|i: int| 0 <= i < ended.len() ==> !(#[trigger] ended[i]).contains('\n'),
        !last.contains('\n'),
    ensures
        lines(terminated(ended) + last) == Seq::new(
            ended.len(),
            |i: int| without_carriage_return(ended[i]),
        ) + (if last.len() == 0 {
            Seq::empty()
        } else {
            seq![last]
        }),
{
    let s = terminated(ended) + last;
    lemma_pieces_terminated(ended);
    lemma_pieces_add(terminated(ended), last, '\n');
    assert(ended.push(Seq::<char>::empty()).drop_last() =~= ended);
    assert(Seq::<char>::empty() + last =~= last);
    let all = pieces(s, '\n');
    assert(all =~= ended.push(last));
    assert(all.drop_last() =~= ended);
    let stripped = Seq::new(ended.len(), |i: int| without_carriage_return(ended[i]));
    if last.len() == 0 {
        assert(lines(s) =~= stripped);
        assert(stripped + Seq::<Seq<char>>::empty() =~= stripped);
    } else {
        assert(lines(s) =~= stripped + seq![last]);
    }
}

/// Lines put together with the given line break between any two are read back, but for
/// an empty one at the end.
pub proof fn lemma_joined_lines_round_trip(all: Seq<Seq<char>>, returned: bool)
    requires
        all.len() > 0,
        forall|i: int| 0 <= i < all.len() ==> !(#[trigger] all[i]).contains('\n'),
        returned || forall|i: int| 0 <= i < all.len() ==> is_plain_line(#[trigger] all[i]),
    ensures
        lines(
            join(
                all,
                if returned {
                    "\r\n"@
                } else {
                    "\n"@
                },
            ),
        ) == (if all.last().len() == 0 {
            all.drop_last()
        } else {
            all
        }),
{
    let before = all.drop_last();
    let last = all.last();
    assert(all[all.len() - 1] == last);
    let ended = if returned {
        with_returns(before)
    } else {
        before
    };
    assert forall|i: int| 0 <= i < ended.len() implies !(#[trigger] ended[i]).contains('\n')
        && without_carriage_return(ended[i]) == before[i] by {
        assert(before[i] == all[i]);
        assert(!all[i].contains('\n'));
        if returned {
            assert(ended[i].drop_last() =~= before[i]);
            if ended[i].contains('\n') {
                let k = choose|k: int| 0 <= k < ended[i].len() && ended[i][k] == '\n';
                assert(all[i][k] == '\n');
            }
        } else {
            assert(is_plain_line(all[i]));
        }
    }
    if all.len() == 1 {
        assert(terminated(ended) =~= Seq::<char>::empty());
        assert(terminated(ended) + last =~= all[0]);
    } else if returned {
        lemma_joined_with_returns(before);
    } else {
        lemma_joined_lines(before);
    }
    lemma_open_end(ended, last);
    let stripped = Seq::new(ended.len(), |i: int| without_carriage_return(ended[i]));
    assert(stripped =~= before);
    assert(before + seq![last] =~= all);
    assert(before + Seq::<Seq<char>>::empty() =~= before);
}

/// No line of a text has a line break in it.
pub proof fn lemma_lines_have_no_breaks(s: Seq<char>)
    ensures
        forall|i: int| 0 <= i < lines(s).len() ==> !(#[trigger] lines(s)[i]).contains('\n'),
{
    lemma_pieces_have_no_separators(s, '\n');
    let all = pieces(s, '\n');
    assert forall|i: int| 0 <= i < lines(s).len() implies !(#[trigger] lines(s)[i]).contains(
        '\n',
    ) by {
        assert(!all[i].contains('\n'));
        if lines(s)[i].contains('\n') {
            let k = choose|k: int| 0 <= k < lines(s)[i].len() && lines(s)[i][k] == '\n';
            assert(all[i][k] == '\n');
        }
    }
}

proof fn lemma_pieces_have_no_separators(s: Seq<char>, separator: char)
    ensures
        pieces(s, separator).len() > 0,
        forall|i: int|
            0 <= i < pieces(s, separator).len() ==> !(#[trigger] pieces(s, separator)[i]).contains(
                separator,
            ),
    decreases s.len(),
{
    if s.len() > 0 {
        lemma_pieces_have_no_separators(s.drop_last(), separator);
        let before = pieces(s.drop_last(), separator);
        let all = pieces(s, separator);
        assert forall|i: int| 0 <= i < all.len() implies !(#[trigger] all[i]).contains(
            separator,
        ) by {
            if i < before.len() {
                assert(!before[i].contains(separator));
                if s.last() != separator && i == before.len() - 1 {
                    if all[i].contains(separator) {
                        let k = choose|k: int| 0 <= k < all[i].len() && all[i][k] == separator;
                        assert(before[i][k] == separator);
                    }
                }
            }
        }
    }
}


// ---------------------------------------------------------------------------
// Runs in their text
// ---------------------------------------------------------------------------

/// Every run stands in the text, is not empty and holds nothing but what is kept; the
/// last one ends a text that ends with something kept.
pub proof fn lemma_runs_occur(s: Seq<char>, keep: spec_fn(char) -> bool)
    ensures
        forall|k: int|
            0 <= k < runs(s, keep).len() ==> (#[trigger] runs(s, keep)[k]).len() > 0 && has_infix(
                s,
                runs(s, keep)[k],
            ),
        forall|k: int, i: int|
            0 <= k < runs(s, keep).len() && 0 <= i < runs(s, keep)[k].len() ==> keep(
                #[trigger] runs(s, keep)[k][i],
            ),
        s.len() > 0 && keep(s.last()) ==> runs(s, keep).len() > 0 && has_suffix(
            s,
            runs(s, keep).last(),
        ),
    decreases s.len(),
{
    if s.len() > 0 {
        let t = s.drop_last();
        let c = s.last();
        let before = runs(t, keep);
        let all = runs(s, keep);
        lemma_runs_occur(t, keep);
        assert forall|r: Seq<char>| #[trigger] has_infix(t, r) implies has_infix(s, r) by {
            let i = choose|i: int| occurs_at(t, r, i);
            assert(s.subrange(i, i + r.len()) =~= t.subrange(i, i + r.len()));
            assert(occurs_at(s, r, i));
        }
        if keep(c) {
            let last = all.last();
            if s.len() >= 2 && keep(s[s.len() - 2]) {
                let w = before.last();
                assert(t.last() == s[s.len() - 2]);
                let at = t.len() - w.len();
                assert(t.subrange(at, at + w.len()) == w);
                assert(last == w.push(c));
                assert(s.subrange(at, at + last.len()) =~= last);
                assert(occurs_at(s, last, at));
            } else {
                assert(last == seq![c]);
                assert(s.subrange(s.len() - 1, s.len() as int) =~= last);
                assert(occurs_at(s, last, s.len() - 1));
            }
            assert forall|k: int| 0 <= k < all.len() implies (#[trigger] all[k]).len() > 0
                && has_infix(s, all[k]) by {
                if k < all.len() - 1 {
                    assert(all[k] == before[k]);
                    assert(has_infix(t, before[k]));
                }
            }
            assert forall|k: int, i: int| 0 <= k < all.len() && 0 <= i < all[k].len() implies keep(
                #[trigger] all[k][i],
            ) by {
                if k < all.len() - 1 {
                    assert(all[k] == before[k]);
                    assert(keep(before[k][i]));
                } else if s.len() >= 2 && keep(s[s.len() - 2]) && i < all[k].len() - 1 {
                    assert(all[k][i] == before[before.len() - 1][i]);
                    assert(keep(before[before.len() - 1][i]));
                }
            }
        } else {
            assert forall|k: int| 0 <= k < all.len() implies (#[trigger] all[k]).len() > 0
                && has_infix(s, all[k]) by {
                assert(has_infix(t, before[k]));
            }
        }
    }
}

proof fn lemma_runs_begin(s: Seq<char>, keep: spec_fn(char) -> bool)
    requires
        s.len() > 0,
        keep(s[0]),
    ensures
        runs(s, keep).len() > 0,
    decreases s.len(),
{
    if s.len() > 1 {
        assert(s.drop_last()[0] == s[0]);
        lemma_runs_begin(s.drop_last(), keep);
    }
}

/// A text that begins and ends with something kept and has one run is that run.
pub proof fn lemma_one_run(s: Seq<char>, keep: spec_fn(char) -> bool)
    requires
        s.len() > 0,
        keep(s[0]),
        keep(s.last()),
        runs(s, keep).len() == 1,
    ensures
        runs(s, keep)[0] == s,
    decreases s.len(),
{
    let t = s.drop_last();
    if s.len() == 1 {
        assert(t =~= Seq::<char>::empty());
        assert(seq![s.last()] =~= s);
    } else {
        assert(t[0] == s[0]);
        assert(t.last() == s[s.len() - 2]);
        lemma_runs_begin(t, keep);
        if keep(t.last()) {
            lemma_one_run(t, keep);
            assert(t.push(s.last()) =~= s);
        }
    }
}


/// The words of a text stand in it, and have no white space at their ends.
pub proof fn lemma_words_occur(s: Seq<char>)
    ensures
        forall|k: int|
            0 <= k < words(s).len() ==> (#[trigger] words(s)[k]).len() > 0 && has_infix(
                s,
                words(s)[k],
            ) && trimmed(words(s)[k]) == words(s)[k],
{
    let keep = |c: char| !white_space(c);
    lemma_runs_occur(s, keep);
    assert(words(s) == runs(s, keep));
    assert forall|k: int| 0 <= k < words(s).len() implies trimmed(#[trigger] words(s)[k])
        == words(s)[k] by {
        let w = runs(s, keep)[k];
        assert(keep(runs(s, keep)[k][0]));
        assert(keep(runs(s, keep)[k][w.len() - 1]));
        lemma_trimmed_stays(w);
    }
}

/// A trimmed text of one word is that word.
pub proof fn lemma_one_word(s: Seq<char>)
    requires
        trimmed(s) == s,
        words(s).len() == 1,
    ensures
        words(s)[0] == s,
{
    let keep = |c: char| !white_space(c);
    assert(words(s) == runs(s, keep));
    if s.len() > 0 {
        lemma_trimmed_ends(s);
        lemma_one_run(s, keep);
    }
}

// ---------------------------------------------------------------------------
// What folding is for
// ---------------------------------------------------------------------------

/// The accented forms of an a fold to it, small ones to the small letter and capitals to the
/// capital, and nothing else does.
pub proof fn lemma_forms_of_a(c: char)
    ensures
        (folded(c) == 'a') <==> (c == 'a' || c == '\u{00e0}' || c == '\u{00e1}' || c == '\u{1ea1}' || c == '\u{1ea3}'
            || c == '\u{00e3}' || c == '\u{00e2}' || c == '\u{1ea7}' || c == '\u{1ea5}'
            || c == '\u{1ead}' || c == '\u{1ea9}' || c == '\u{1eab}' || c == '\u{0103}'
            || c == '\u{1eb1}' || c == '\u{1eaf}' || c == '\u{1eb7}' || c == '\u{1eb3}'
            || c == '\u{1eb5}'),
        (folded(c) == 'A') <==> (c == 'A' || c == '\u{00c0}' || c == '\u{00c1}' || c == '\u{1ea0}' || c == '\u{1ea2}'
            || c == '\u{00c3}' || c == '\u{00c2}' || c == '\u{1ea6}' || c == '\u{1ea4}'
            || c == '\u{1eac}' || c == '\u{1ea8}' || c == '\u{1eaa}' || c == '\u{0102}'
            || c == '\u{1eb0}' || c == '\u{1eae}' || c == '\u{1eb6}' || c == '\u{1eb2}'
            || c == '\u{1eb4}'),
{
}

/// The accented forms of an e fold to it, small ones to the small letter and capitals to the
/// capital, and nothing else does.
pub proof fn lemma_forms_of_e(c: char)
    ensures
        (folded(c) == 'e') <==> (c == 'e' || c == '\u{00e8}' || c == '\u{00e9}' || c == '\u{1eb9}' || c == '\u{1ebb}'
            || c == '\u{1ebd}' || c == '\u{00ea}' || c == '\u{1ec1}' || c == '\u{1ebf}'
            || c == '\u{1ec7}' || c == '\u{1ec3}' || c == '\u{1ec5}'),
        (folded(c) == 'E') <==> (c == 'E' || c == '\u{00c8}' || c == '\u{00c9}' || c == '\u{1eb8}' || c == '\u{1eba}'
            || c == '\u{1ebc}' || c == '\u{00ca}' || c == '\u{1ec0}' || c == '\u{1ebe}'
            || c == '\u{1ec6}' || c == '\u{1ec2}' || c == '\u{1ec4}'),
{
}

/// The accented forms of an i fold to it, small ones to the small letter and capitals to the
/// capital, and nothing else does.
pub proof fn lemma_forms_of_i(c: char)
    ensures
        (folded(c) == 'i') <==> (c == 'i' || c == '\u{00ec}' || c == '\u{00ed}' || c == '\u{1ecb}' || c == '\u{1ec9}'
            || c == '\u{0129}'),
        (folded(c) == 'I') <==> (c == 'I' || c == '\u{00cc}' || c == '\u{00cd}' || c == '\u{1eca}' || c == '\u{1ec8}'
            || c == '\u{0128}'),
{
}

/// The accented forms of an o fold to it, small ones to the small letter and capitals to the
/// capital, and nothing else does.
pub proof fn lemma_forms_of_o(c: char)
    ensures
        (folded(c) == 'o') <==> (c == 'o' || c == '\u{00f2}' || c == '\u{00f3}' || c == '\u{1ecd}' || c == '\u{1ecf}'
            || c == '\u{00f5}' || c == '\u{00f4}' || c == '\u{1ed3}' || c == '\u{1ed1}'
            || c == '\u{1ed9}' || c == '\u{1ed5}' || c == '\u{1ed7}' || c == '\u{01a1}'
            || c == '\u{1edd}' || c == '\u{1edb}' || c == '\u{1ee3}' || c == '\u{1edf}'
            || c == '\u{1ee1}'),
        (folded(c) == 'O') <==> (c == 'O' || c == '\u{00d2}' || c == '\u{00d3}' || c == '\u{1ecc}' || c == '\u{1ece}'
            || c == '\u{00d5}' || c == '\u{00d4}' || c == '\u{1ed2}' || c == '\u{1ed0}'
            || c == '\u{1ed8}' || c == '\u{1ed4}' || c == '\u{1ed6}' || c == '\u{01a0}'
            || c == '\u{1edc}' || c == '\u{1eda}' || c == '\u{1ee2}' || c == '\u{1ede}'
            || c == '\u{1ee0}'),
{
}

/// The accented forms of a u fold to it, small ones to the small letter and capitals to the
/// capital, and nothing else does.
pub proof fn lemma_forms_of_u(c: char)
    ensures
        (folded(c) == 'u') <==> (c == 'u' || c == '\u{00f9}' || c == '\u{00fa}' || c == '\u{1ee5}' || c == '\u{1ee7}'
            || c == '\u{0169}' || c == '\u{01b0}' || c == '\u{1eeb}' || c == '\u{1ee9}'
            || c == '\u{1ef1}' || c == '\u{1eed}' || c == '\u{1eef}'),
        (folded(c) == 'U') <==> (c == 'U' || c == '\u{00d9}' || c == '\u{00da}' || c == '\u{1ee4}' || c == '\u{1ee6}'
            || c == '\u{0168}' || c == '\u{01af}' || c == '\u{1eea}' || c == '\u{1ee8}'
            || c == '\u{1ef0}' || c == '\u{1eec}' || c == '\u{1eee}'),
{
}

/// The accented forms of a y fold to it, small ones to the small letter and capitals to the
/// capital, and nothing else does.
pub proof fn lemma_forms_of_y(c: char)
    ensures
        (folded(c) == 'y') <==> (c == 'y' || c == '\u{1ef3}' || c == '\u{00fd}' || c == '\u{1ef5}' || c == '\u{1ef7}'
            || c == '\u{1ef9}'),
        (folded(c) == 'Y') <==> (c == 'Y' || c == '\u{1ef2}' || c == '\u{00dd}' || c == '\u{1ef4}' || c == '\u{1ef6}'
            || c == '\u{1ef8}'),
{
}

/// The accented forms of a d fold to it, small ones to the small letter and capitals to the
/// capital, and nothing else does.
pub proof fn lemma_forms_of_d(c: char)
    ensures
        (folded(c) == 'd') <==> (c == 'd' || c == '\u{0111}'),
        (folded(c) == 'D') <==> (c == 'D' || c == '\u{0110}'),
{
}

/// A character that is folded becomes one of the letters that accents stand on; every other
/// one stays, and so do these.
pub proof fn lemma_folding_leaves_the_rest(c: char)
    ensures
        folded(c) != c ==> seq!['a', 'e', 'i', 'o', 'u', 'y', 'd', 'A', 'E', 'I', 'O', 'U', 'Y', 'D'].contains(
            folded(c),
        ),
        is_ascii_char(c) ==> folded(c) == c,
        folded(c) != c ==> is_ascii_char(folded(c)),
        folded(folded(c)) == folded(c),
{
    let letters = seq!['a', 'e', 'i', 'o', 'u', 'y', 'd', 'A', 'E', 'I', 'O', 'U', 'Y', 'D'];
    assert(letters[0] == 'a' && letters[1] == 'e' && letters[2] == 'i' && letters[3] == 'o'
        && letters[4] == 'u' && letters[5] == 'y' && letters[6] == 'd' && letters[7] == 'A'
        && letters[8] == 'E' && letters[9] == 'I' && letters[10] == 'O' && letters[11] == 'U'
        && letters[12] == 'Y' && letters[13] == 'D');
}

/// A name and the same name typed without its accents are compared as one: two texts that
/// differ only by accents have one folded form.
pub proof fn lemma_typed_without_accents(name: Seq<char>, typed: Seq<char>)
    requires
        name.len() == typed.len(),
        forall|i: int|
            0 <= i < name.len() ==> #[trigger] typed[i] == name[i] || typed[i] == folded(name[i]),
    ensures
        fold(typed) == fold(name),
{
    assert forall|i: int| 0 <= i < name.len() implies folded(typed[i]) == #[trigger] folded(name[i]) by {
        lemma_folding_leaves_the_rest(name[i]);
        assert(typed[i] == name[i] || typed[i] == folded(name[i]));
    }
    assert(folded_seq(typed) =~= folded_seq(name));
}

/// Folding changes no place of a text but by the letter that stands there.
pub proof fn lemma_folding_is_letter_by_letter(a: Seq<char>, b: Seq<char>)
    ensures
        folded_seq(a + b) == folded_seq(a) + folded_seq(b),
        folded_seq(a).len() == a.len(),
        forall|i: int| 0 <= i < a.len() ==> #[trigger] folded_seq(a)[i] == folded(a[i]),
{
    assert(folded_seq(a + b) =~= folded_seq(a) + folded_seq(b));
}


/// Texts are ordered by the first character in which they differ; a text comes before every
/// longer one that begins with it.
pub proof fn lemma_first_difference_decides(
    common: Seq<char>,
    a: Seq<char>,
    b: Seq<char>,
)
    ensures
        a.len() > 0 && b.len() > 0 && a[0] != b[0] ==> (text_less(common + a, common + b)
            <==> a[0] < b[0]),
        b.len() > 0 ==> text_less(common, common + b),
        !text_less(common + b, common),
    decreases common.len(),
{
    if common.len() == 0 {
        assert(common + a =~= a);
        assert(common + b =~= b);
    } else {
        let rest = common.drop_first();
        lemma_first_difference_decides(rest, a, b);
        assert((common + a).drop_first() =~= rest + a);
        assert((common + b).drop_first() =~= rest + b);
    }
}

proof fn lemma_trimmed_start_is(s: Seq<char>)
    ensures
        ({
            let n = s.len() - trimmed_start(s).len();
            &&& 0 <= n <= s.len()
            &&& trimmed_start(s) == s.skip(n)
            &&& forall|i: int| 0 <= i < n ==> white_space(#[trigger] s[i])
            &&& trimmed_start(s).len() > 0 ==> !white_space(trimmed_start(s)[0])
        }),
    decreases s.len(),
{
    if s.len() > 0 && white_space(s[0]) {
        let rest = s.drop_first();
        lemma_trimmed_start_is(rest);
        let n = rest.len() - trimmed_start(rest).len();
        assert(rest.skip(n) =~= s.skip(n + 1));
        assert forall|i: int| 0 <= i < n + 1 implies white_space(#[trigger] s[i]) by {
            if i > 0 {
                assert(rest[i - 1] == s[i]);
            }
        }
    } else {
        assert(s.skip(0) =~= s);
    }
}

proof fn lemma_trimmed_end_is(s: Seq<char>)
    ensures
        ({
            let n = trimmed_end(s).len() as int;
            &&& 0 <= n <= s.len()
            &&& trimmed_end(s) == s.take(n)
            &&& forall|i: int| n <= i < s.len() ==> white_space(#[trigger] s[i])
            &&& trimmed_end(s).len() > 0 ==> !white_space(trimmed_end(s).last())
        }),
    decreases s.len(),
{
    if s.len() > 0 && white_space(s.last()) {
        let front = s.drop_last();
        lemma_trimmed_end_is(front);
        let n = trimmed_end(front).len() as int;
        assert(front.take(n) =~= s.take(n));
        assert forall|i: int| n <= i < s.len() implies white_space(#[trigger] s[i]) by {
            if i < s.len() - 1 {
                assert(front[i] == s[i]);
            }
        }
    } else {
        assert(s.take(s.len() as int) =~= s);
    }
}

/// Trimming takes white space away at both ends and nothing else: what is left begins and
/// ends with something else, and there was only white space in front of it and behind it.
pub proof fn lemma_trimming_takes_white_space(s: Seq<char>)
    ensures
        exists|i: int, j: int|
            0 <= i <= j <= s.len() && #[trigger] s.subrange(i, j) == trimmed(s) && (forall|k: int|
                0 <= k < i || j <= k < s.len() ==> white_space(#[trigger] s[k])),
        trimmed(s).len() > 0 ==> !white_space(trimmed(s)[0]) && !white_space(trimmed(s).last()),
{
    let rest = trimmed_start(s);
    let i = s.len() - rest.len();
    lemma_trimmed_start_is(s);
    lemma_trimmed_end_is(rest);
    let n = trimmed(s).len() as int;
    assert(s.subrange(i, i + n) =~= trimmed(s));
    assert forall|k: int| 0 <= k < i || i + n <= k < s.len() implies white_space(#[trigger] s[k]) by {
        if k >= i + n {
            assert(rest[k - i] == s[k]);
        }
    }
    if n > 0 {
        assert(trimmed(s)[0] == rest[0]);
    }
}

/// A space, a tab and line breaks are white space; letters, digits and signs are not.
pub proof fn lemma_white_space(c: char)
    ensures
        white_space(' ') && white_space('\t') && white_space('\r') && white_space('\n'),
        is_ascii_char(c) && white_space(c) ==> c == ' ' || ('\t' <= c && c <= '\r'),
        ascii_alphanumeric(c) ==> !white_space(c),
{
}

/// Two texts are one but for the case of ASCII letters where they have one length and each
/// pair of characters is the same or a capital and its small letter.
pub proof fn lemma_same_but_for_case(a: Seq<char>, b: Seq<char>)
    ensures
        same_ignoring_ascii_case(a, b) <==> a.len() == b.len() && forall|i: int|
            0 <= i < a.len() ==> #[trigger] a[i] == b[i] || ('A' <= a[i] && a[i] <= 'Z' && b[i] as u32
                == a[i] as u32 + 32) || ('A' <= b[i] && b[i] <= 'Z' && a[i] as u32 == b[i] as u32 + 32),
{
    let x = ascii_lower_seq(a);
    let y = ascii_lower_seq(b);
    if same_ignoring_ascii_case(a, b) {
        assert(x.len() == a.len() && y.len() == b.len());
        assert forall|i: int| 0 <= i < a.len() implies #[trigger] a[i] == b[i] || ('A' <= a[i] && a[i]
            <= 'Z' && b[i] as u32 == a[i] as u32 + 32) || ('A' <= b[i] && b[i] <= 'Z' && a[i] as u32
            == b[i] as u32 + 32) by {
            assert(x[i] == y[i]);
            assert(x[i] == ascii_lower(a[i]) && y[i] == ascii_lower(b[i]));
        }
    } else if a.len() == b.len() && forall|i: int|
        0 <= i < a.len() ==> #[trigger] a[i] == b[i] || ('A' <= a[i] && a[i] <= 'Z' && b[i] as u32
            == a[i] as u32 + 32) || ('A' <= b[i] && b[i] <= 'Z' && a[i] as u32 == b[i] as u32 + 32) {
        assert forall|i: int| 0 <= i < x.len() implies x[i] == y[i] by {
            assert(a[i] == a[i]);
        }
        assert(x =~= y);
    }
}

/// A text begins with what it was put together from first, ends with what came last, and holds
/// what stands between; and nothing else is found there.
pub proof fn lemma_found_in(hay: Seq<char>, needle: Seq<char>)
    ensures
        has_infix(hay, needle) <==> exists|a: Seq<char>, b: Seq<char>|
            #[trigger] (a + needle + b) == hay,
        has_prefix(hay, needle) <==> exists|b: Seq<char>| #[trigger] (needle + b) == hay,
        has_suffix(hay, needle) <==> exists|a: Seq<char>| #[trigger] (a + needle) == hay,
{
    let n = needle.len() as int;
    if has_infix(hay, needle) {
        let i = choose|i: int| occurs_at(hay, needle, i);
        assert(hay.take(i) + needle + hay.skip(i + n) =~= hay);
    }
    if exists|a: Seq<char>, b: Seq<char>| #[trigger] (a + needle + b) == hay {
        let (a, b) = choose|a: Seq<char>, b: Seq<char>| #[trigger] (a + needle + b) == hay;
        assert(hay.subrange(a.len() as int, a.len() + n) =~= needle);
        assert(occurs_at(hay, needle, a.len() as int));
    }
    if has_prefix(hay, needle) {
        assert(needle + hay.skip(n) =~= hay);
    }
    if exists|b: Seq<char>| #[trigger] (needle + b) == hay {
        let b = choose|b: Seq<char>| #[trigger] (needle + b) == hay;
        assert(hay.subrange(0, n) =~= needle);
    }
    if has_suffix(hay, needle) {
        assert(hay.take(hay.len() - n) + needle =~= hay);
    }
    if exists|a: Seq<char>| #[trigger] (a + needle) == hay {
        let a = choose|a: Seq<char>| #[trigger] (a + needle) == hay;
        assert(hay.subrange(hay.len() - n, hay.len() as int) =~= needle);
    }
}

/// Numbers are written in tens, with the lowest digit last.
pub proof fn lemma_written_in_tens(n: nat, d: nat)
    requires
        d < 10,
    ensures
        decimal(d as int).len() == 1 && decimal(d as int)[0] as u32 == '0' as u32 + d,
        n > 0 ==> decimal((10 * n + d) as int) == decimal(n as int) + decimal(d as int),
        n > 0 ==> decimal(-(n as int)) == seq!['-'] + decimal(n as int),
{
    if n > 0 {
        let all: nat = 10 * n + d;
        assert(all / 10 == n && all % 10 == d);
        assert(decimal_nat(all) =~= decimal_nat(n) + decimal_nat(d));
    }
}

/// A number is read where there is a sign at most and digits behind it; what it is worth grows
/// tenfold with each digit.
pub proof fn lemma_read_in_tens(s: Seq<char>, c: char)
    requires
        all_digits(s),
        is_digit(c),
    ensures
        parsed_int(s) == Some(digits_value(s) as int),
        parsed_int(seq!['+'] + s) == parsed_int(s),
        parsed_int(seq!['-'] + s) == Some(-parsed_int(s)->0),
        parsed_int(s.push(c)) == Some(10 * parsed_int(s)->0 + (c as u32 - '0' as u32)),
        parsed_int(Seq::empty()) is None,
        parsed_int(seq!['+']) is None,
        parsed_int(seq!['-']) is None,
{
    assert((seq!['+'] + s).drop_first() =~= s);
    assert((seq!['-'] + s).drop_first() =~= s);
    assert(s.push(c).drop_last() =~= s);
    assert(is_digit(s[0]));
    let all = s.push(c);
    assert forall|i: int| 0 <= i < all.len() implies is_digit(#[trigger] all[i]) by {
        if i < s.len() {
            assert(all[i] == s[i]);
        }
    }
    assert(is_digit(all[0]));
    assert(seq!['+'].drop_first().len() == 0);
    assert(seq!['-'].drop_first().len() == 0);
}

proof fn lemma_joined_letters(parts: Seq<Seq<char>>, last: Seq<char>, keep: spec_fn(char) -> bool)
    requires
        !keep(' '),
    ensures
        join(parts.push(last), seq![' ']).filter(keep) == join(parts, seq![' ']).filter(keep)
            + last.filter(keep),
{
    let all = parts.push(last);
    assert(all.drop_last() =~= parts);
    if parts.len() == 0 {
        assert(join(parts, seq![' ']) + last =~= last);
        assert(join(all, seq![' ']) == last);
        assert(join(parts, seq![' ']).filter(keep) =~= Seq::<char>::empty()) by {
            reveal(Seq::filter);
        }
        assert(Seq::<char>::empty() + last.filter(keep) =~= last.filter(keep));
    } else {
        let a = join(parts, seq![' ']);
        Seq::filter_distributes_over_add(a + seq![' '], last, keep);
        Seq::filter_distributes_over_add(a, seq![' '], keep);
        assert(seq![' '].filter(keep) =~= Seq::<char>::empty()) by {
            reveal(Seq::filter);
            let gap = seq![' '];
            assert(gap.drop_last() =~= Seq::<char>::empty());
            assert(gap.drop_last().filter(keep) =~= Seq::<char>::empty());
            assert(gap.last() == ' ');
        }
        assert(a.filter(keep) + Seq::<char>::empty() =~= a.filter(keep));
    }
}

/// Runs that are put together with spaces between them hold all that is kept, in its order, and
/// nothing else but the spaces.
pub proof fn lemma_runs_hold_all(s: Seq<char>, keep: spec_fn(char) -> bool)
    requires
        !keep(' '),
    ensures
        join(runs(s, keep), seq![' ']).filter(keep) == s.filter(keep),
    decreases s.len(),
{
    reveal(Seq::filter);
    if s.len() > 0 {
        let front = s.drop_last();
        lemma_runs_hold_all(front, keep);
        let before = runs(front, keep);
        if keep(s.last()) {
            let one = seq![s.last()];
            assert(one.drop_last() =~= Seq::<char>::empty());
            assert(one.filter(keep) =~= one);
            if s.len() >= 2 && keep(s[s.len() - 2]) {
                lemma_runs_occur(front, keep);
                assert(front.last() == s[s.len() - 2]);
                let rest = before.drop_last();
                assert(rest.push(before.last()) =~= before);
                lemma_joined_letters(rest, before.last(), keep);
                lemma_joined_letters(rest, before.last().push(s.last()), keep);
                assert(before.last().push(s.last()) =~= before.last() + one);
                Seq::filter_distributes_over_add(before.last(), one, keep);
                let start = join(rest, seq![' ']).filter(keep);
                assert(start + (before.last().filter(keep) + one) =~= (start
                    + before.last().filter(keep)) + one);
                assert(s.filter(keep) =~= front.filter(keep) + one);
            } else {
                lemma_joined_letters(before, one, keep);
                assert(s.filter(keep) =~= front.filter(keep) + one);
            }
        }
    }
}

/// What is searched in a text are its letters and digits, in their order, with the accents and
/// the case folded away; single spaces stand in place of everything else.
pub proof fn lemma_searched_letters(s: Seq<char>)
    ensures
        ({
            let letter = |c: char| unicode_alphanumeric(c) && !white_space(c);
            &&& searchable(s).filter(letter) == fold(s).filter(letter)
            &&& words(searchable(s)) == runs(fold(s), letter)
            &&& runs(searchable(s), letter) == runs(fold(s), letter)
        }),
{
    let letter = |c: char| unicode_alphanumeric(c) && !white_space(c);
    let visible = |c: char| !white_space(c);
    let parts = runs(fold(s), letter);
    lemma_runs_hold_all(fold(s), letter);
    lemma_runs_occur(fold(s), letter);
    lemma_runs_joined(parts, ' ', letter);
    lemma_runs_joined(parts, ' ', visible);
}

/// A text that is put together from three is found to hold each of them at its place.
pub proof fn lemma_stands_in(a: Seq<char>, b: Seq<char>, c: Seq<char>)
    ensures
        has_infix(a + b + c, b),
        has_prefix(b + c, b),
        has_suffix(a + b, b),
{
    let n = b.len() as int;
    assert((a + b + c).subrange(a.len() as int, a.len() + n) =~= b);
    assert(occurs_at(a + b + c, b, a.len() as int));
    assert((b + c).subrange(0, n) =~= b);
    assert((a + b).subrange(a.len() as int, a.len() + n) =~= b);
}

} // verus!
