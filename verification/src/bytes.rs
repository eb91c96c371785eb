//! Numbers and texts as bytes: little-endian numbers of a fixed width, and
//! texts behind the count of their UTF-8 bytes.

use vstd::prelude::*;
use vstd::utf8::*;

verus! {

// ---------------------------------------------------------------------------
// Model
// ---------------------------------------------------------------------------

/// The lowest `width` bytes of a number, the lowest first.
pub open spec fn le(n: nat, width: nat) -> Seq<u8>
    decreases width,
{
    if width == 0 {
        Seq::empty()
    } else {
        seq![(n % 256) as u8] + le(n / 256, (width - 1) as nat)
    }
}

/// The number that bytes note, the lowest first.
pub open spec fn le_value(s: Seq<u8>) -> nat
    decreases s.len(),
{
    if s.len() == 0 {
        0
    } else {
        s[0] as nat + 256 * le_value(s.drop_first())
    }
}

/// The number of values of `width` bytes.
pub open spec fn span(width: nat) -> nat
    decreases width,
{
    if width == 0 {
        1
    } else {
        256 * span((width - 1) as nat)
    }
}

/// A signed number of 32 bits as an unsigned one, in two's complement.
pub open spec fn unsigned(v: i32) -> nat {
    if v < 0 {
        (v + 0x1_0000_0000) as nat
    } else {
        v as nat
    }
}

/// An unsigned number of 32 bits as a signed one, in two's complement.
pub open spec fn signed(u: nat) -> i32 {
    if u >= 0x8000_0000 {
        (u - 0x1_0000_0000) as i32
    } else {
        u as i32
    }
}

/// A text behind the count of its bytes.
pub open spec fn text_bytes(s: Seq<char>) -> Seq<u8> {
    le(encode_utf8(s).len(), 4) + encode_utf8(s)
}

/// The bytes of a part of a sequence, and nothing where they are not all there.
pub open spec fn slice_of(b: Seq<u8>, at: int, n: int) -> Option<Seq<u8>> {
    if 0 <= at && 0 <= n && at + n <= b.len() {
        Some(b.subrange(at, at + n))
    } else {
        None
    }
}

/// A number of `width` bytes at a place.
pub open spec fn number_at(b: Seq<u8>, at: int, width: nat) -> Option<nat> {
    match slice_of(b, at, width as int) {
        Some(s) => Some(le_value(s)),
        None => None,
    }
}

pub proof fn lemma_le(n: nat, width: nat)
    ensures
        le(n, width).len() == width,
        n < span(width) ==> le_value(le(n, width)) == n,
    decreases width,
{
    if width > 0 {
        lemma_le(n / 256, (width - 1) as nat);
        assert(le(n, width).drop_first() =~= le(n / 256, (width - 1) as nat));
    }
}

pub proof fn lemma_le_value(s: Seq<u8>)
    ensures
        le_value(s) < span(s.len()),
    decreases s.len(),
{
    if s.len() > 0 {
        lemma_le_value(s.drop_first());
    }
}

/// Bytes are what the number that they note is noted by.
pub proof fn lemma_le_of_value(s: Seq<u8>)
    ensures
        le(le_value(s), s.len()) == s,
    decreases s.len(),
{
    if s.len() > 0 {
        lemma_le_of_value(s.drop_first());
        let n = le_value(s);
        assert(n % 256 == s[0] as nat && n / 256 == le_value(s.drop_first()));
        assert(le(n, s.len()) =~= s);
    } else {
        assert(le(le_value(s), s.len()) =~= s);
    }
}

pub proof fn lemma_span()
    ensures
        span(1) == 0x100,
        span(2) == 0x1_0000,
        span(4) == 0x1_0000_0000,
        span(8) == 0x1_0000_0000_0000_0000,
{
    reveal_with_fuel(span, 9);
}

// ---------------------------------------------------------------------------
// Writing
// ---------------------------------------------------------------------------

/// Appends the lowest bytes of a number.
pub fn append_le(out: &mut Vec<u8>, n: u64, width: usize)
    ensures
        final(out)@ == old(out)@ + le(n as nat, width as nat),
    decreases width,
{
    if width > 0 {
        out.push((n % 256) as u8);
        append_le(out, n / 256, width - 1);
    }
    proof {
        assert(out@ =~= old(out)@ + le(n as nat, width as nat));
    }
}

/// A signed number as an unsigned one.
pub fn to_unsigned(v: i32) -> (r: u32)
    ensures
        r == unsigned(v),
{
    if v < 0 {
        (v as i64 + 0x1_0000_0000) as u32
    } else {
        v as u32
    }
}

/// An unsigned number as a signed one.
pub fn to_signed(u: u32) -> (r: i32)
    ensures
        r == signed(u as nat),
{
    if u >= 0x8000_0000 {
        (u as i64 - 0x1_0000_0000) as i32
    } else {
        u as i32
    }
}

/// Appends a signed number of 32 bits.
pub fn append_i32(out: &mut Vec<u8>, v: i32)
    ensures
        final(out)@ == old(out)@ + le(unsigned(v), 4),
{
    append_le(out, to_unsigned(v) as u64, 4);
}

/// Appends bytes.
pub fn append_bytes(out: &mut Vec<u8>, bytes: &[u8])
    ensures
        final(out)@ == old(out)@ + bytes@,
{
    let mut i: usize = 0;
    let ghost before = out@;
    proof {
        assert(before + bytes@.take(0) =~= before);
    }
    while i < bytes.len()
        invariant
            i <= bytes.len(),
            out@ == before + bytes@.take(i as int),
        decreases bytes.len() - i,
    {
        out.push(bytes[i]);
        proof {
            assert(before + bytes@.take(i + 1) =~= (before + bytes@.take(i as int)).push(
                bytes@[i as int],
            ));
        }
        i += 1;
    }
    proof {
        assert(bytes@.take(bytes@.len() as int) =~= bytes@);
    }
}

/// Appends a text behind the count of its bytes.
pub fn write_string(out: &mut Vec<u8>, value: &str)
    ensures
        final(out)@ == old(out)@ + text_bytes(value@),
{
    let bytes = value.as_bytes();
    append_le(out, bytes.len() as u64, 4);
    append_bytes(out, bytes);
    proof {
        assert(out@ =~= old(out)@ + text_bytes(value@));
    }
}

// ---------------------------------------------------------------------------
// Reading
// ---------------------------------------------------------------------------

/// Why bytes could not be read.
#[derive(Clone, Copy, Debug, PartialEq, Eq, Structural)]
pub enum ReadError {
    /// The bytes end too early.
    UnexpectedEnd,
    /// A text is not UTF-8.
    InvalidUtf8,
}

/// Reads a number of at most eight bytes.
fn read_le(bytes: &[u8], at: usize, width: usize) -> (r: Option<u64>)
    requires
        width <= 8,
    ensures
        match number_at(bytes@, at as int, width as nat) {
            Some(n) => r matches Some(found) && found == n && at + width <= bytes.len(),
            None => r is None,
        },
{
    if at > bytes.len() || width > bytes.len() - at {
        return None;
    }
    let ghost part = bytes@.subrange(at as int, at + width);
    let mut value: u64 = 0;
    let mut k: usize = width;
    proof {
        assert(part.skip(width as int) =~= Seq::<u8>::empty());
        lemma_span();
    }
    while k > 0
        invariant
            k <= width <= 8,
            at + width <= bytes.len(),
            part == bytes@.subrange(at as int, at + width),
            value == le_value(part.skip(k as int)),
        decreases k,
    {
        proof {
            let tail = part.skip(k - 1);
            assert(tail.drop_first() =~= part.skip(k as int));
            assert(tail[0] == bytes@[at + k - 1]);
            lemma_le_value(tail);
            lemma_span_bound((width - (k - 1)) as nat);
        }
        value = value * 256 + bytes[at + (k - 1)] as u64;
        k -= 1;
    }
    proof {
        assert(part.skip(0) =~= part);
    }
    Some(value)
}

proof fn lemma_span_bound(width: nat)
    requires
        width <= 8,
    ensures
        span(width) <= 0x1_0000_0000_0000_0000,
{
    reveal_with_fuel(span, 9);
}

/// Reads one byte.
pub fn read_u8(bytes: &[u8], at: &mut usize) -> (r: Result<u8, ReadError>)
    ensures
        match number_at(bytes@, *old(at) as int, 1) {
            Some(n) => r == Ok::<u8, ReadError>(n as u8) && *final(at) == *old(at) + 1 && n < 256,
            None => r == Err::<u8, ReadError>(ReadError::UnexpectedEnd) && *final(at) == *old(at),
        },
{
    let start: usize = *at;
    match read_le(bytes, start, 1) {
        Some(n) => {
            proof {
                lemma_le_value(bytes@.subrange(start as int, start + 1));
                lemma_span();
            }
            *at = start + 1;
            Ok(n as u8)
        },
        None => Err(ReadError::UnexpectedEnd),
    }
}

/// Reads a number of 32 bits.
pub fn read_u32(bytes: &[u8], at: &mut usize) -> (r: Result<u32, ReadError>)
    ensures
        match number_at(bytes@, *old(at) as int, 4) {
            Some(n) => r == Ok::<u32, ReadError>(n as u32) && *final(at) == *old(at) + 4 && n
                <= u32::MAX,
            None => r == Err::<u32, ReadError>(ReadError::UnexpectedEnd) && *final(at) == *old(at),
        },
{
    let start: usize = *at;
    match read_le(bytes, start, 4) {
        Some(n) => {
            proof {
                lemma_le_value(bytes@.subrange(start as int, start + 4));
                lemma_span();
            }
            *at = start + 4;
            Ok(n as u32)
        },
        None => Err(ReadError::UnexpectedEnd),
    }
}

/// Reads a number of 64 bits.
pub fn read_u64(bytes: &[u8], at: &mut usize) -> (r: Result<u64, ReadError>)
    ensures
        match number_at(bytes@, *old(at) as int, 8) {
            Some(n) => r == Ok::<u64, ReadError>(n as u64) && *final(at) == *old(at) + 8 && n
                <= u64::MAX,
            None => r == Err::<u64, ReadError>(ReadError::UnexpectedEnd) && *final(at) == *old(at),
        },
{
    let start: usize = *at;
    match read_le(bytes, start, 8) {
        Some(n) => {
            *at = start + 8;
            Ok(n)
        },
        None => Err(ReadError::UnexpectedEnd),
    }
}

/// Reads a signed number of 32 bits.
pub fn read_i32(bytes: &[u8], at: &mut usize) -> (r: Result<i32, ReadError>)
    ensures
        match number_at(bytes@, *old(at) as int, 4) {
            Some(n) => r == Ok::<i32, ReadError>(signed(n)) && *final(at) == *old(at) + 4 && n
                <= u32::MAX,
            None => r == Err::<i32, ReadError>(ReadError::UnexpectedEnd) && *final(at) == *old(at),
        },
{
    match read_u32(bytes, at) {
        Ok(u) => Ok(to_signed(u)),
        Err(error) => Err(error),
    }
}

/// Calls `String::from_utf8`: valid UTF-8 becomes the text that it encodes,
/// anything else nothing.
#[verifier::external_body]
pub(crate) fn text_from_utf8(bytes: Vec<u8>) -> (r: Option<String>)
    ensures
        match r {
            Some(s) => valid_utf8(bytes@) && s@ == decode_utf8(bytes@),
            None => !valid_utf8(bytes@),
        },
{
    String::from_utf8(bytes).ok()
}

/// A text behind its byte count at a place: the text and where it ends.
pub open spec fn text_at(b: Seq<u8>, at: int) -> Result<(Seq<char>, int), ReadError> {
    match number_at(b, at, 4) {
        None => Err(ReadError::UnexpectedEnd),
        Some(n) => match slice_of(b, at + 4, n as int) {
            None => Err(ReadError::UnexpectedEnd),
            Some(s) => if valid_utf8(s) {
                Ok((decode_utf8(s), at + 4 + n))
            } else {
                Err(ReadError::InvalidUtf8)
            },
        },
    }
}

/// Reads a text behind the count of its bytes.
pub fn read_string(bytes: &[u8], at: &mut usize) -> (r: Result<String, ReadError>)
    ensures
        match text_at(bytes@, *old(at) as int) {
            Ok((s, end)) => r matches Ok(found) && found@ == s && *final(at) == end,
            Err(error) => r matches Err(found) && found == error,
        },
        *final(at) <= bytes.len() || *final(at) == *old(at),
{
    let n: u32 = match read_u32(bytes, at) {
        Ok(n) => n,
        Err(error) => {
            return Err(error);
        },
    };
    let start: usize = *at;
    if n as usize > bytes.len() - start {
        return Err(ReadError::UnexpectedEnd);
    }
    let end: usize = start + n as usize;
    let part = vstd::slice::slice_to_vec(vstd::slice::slice_subrange(bytes, start, end));
    match text_from_utf8(part) {
        Some(s) => {
            *at = end;
            Ok(s)
        },
        None => Err(ReadError::InvalidUtf8),
    }
}

/// Reading a written text gives it back.
pub proof fn lemma_text_round_trip(s: Seq<char>, before: Seq<u8>, after: Seq<u8>)
    requires
        encode_utf8(s).len() <= u32::MAX,
    ensures
        text_at(before + text_bytes(s) + after, before.len() as int) == Ok::<
            (Seq<char>, int),
            ReadError,
        >((s, before.len() + text_bytes(s).len() as int)),
        text_bytes(s).len() == 4 + encode_utf8(s).len(),
{
    let whole = before + text_bytes(s) + after;
    let at = before.len() as int;
    let n = encode_utf8(s).len();
    lemma_le(n, 4);
    lemma_span();
    assert(whole.subrange(at, at + 4) =~= le(n, 4));
    assert(whole.subrange(at + 4, at + 4 + n) =~= encode_utf8(s));
    encode_utf8_valid_utf8(s);
    encode_utf8_decode_utf8(s);
}

/// Reading a written number gives it back.
pub proof fn lemma_number_round_trip(n: nat, width: nat, before: Seq<u8>, after: Seq<u8>)
    requires
        n < span(width),
    ensures
        number_at(before + le(n, width) + after, before.len() as int, width) == Some(n),
        le(n, width).len() == width,
{
    let whole = before + le(n, width) + after;
    let at = before.len() as int;
    lemma_le(n, width);
    assert(whole.subrange(at, at + width) =~= le(n, width));
}

/// A signed number survives the way through an unsigned one.
pub proof fn lemma_signed_round_trip(v: i32)
    ensures
        signed(unsigned(v)) == v,
        unsigned(v) < 0x1_0000_0000,
{
}

} // verus!
