//! Texts in sixteen-bit units.

use crate::text;
use vstd::prelude::*;
use vstd::utf8::*;

verus! {

/// `char::from_u32` of the standard library: the character with a number; none where no
/// character has it.
pub assume_specification[ char::from_u32 ](i: u32) -> (r: Option<char>)
    ensures
        match r {
            Some(c) => is_scalar(i) && c as u32 == i,
            None => !is_scalar(i),
        },
;

// ---------------------------------------------------------------------------
// Model
// ---------------------------------------------------------------------------

/// The units of a character: one, or a leading and a trailing half.
pub open spec fn units(c: char) -> Seq<u16> {
    let n = c as u32;
    if n < 0x10000 {
        seq![n as u16]
    } else {
        let offset = (n - 0x10000) as int;
        seq![(0xD800 + offset / 0x400) as u16, (0xDC00 + offset % 0x400) as u16]
    }
}

/// The units of a text.
pub open spec fn utf16(s: Seq<char>) -> Seq<u16>
    decreases s.len(),
{
    if s.len() == 0 {
        Seq::empty()
    } else {
        units(s[0]) + utf16(s.skip(1))
    }
}

/// A unit is the leading half of a character.
pub open spec fn is_leading(u: u16) -> bool {
    0xD800 <= u < 0xDC00
}

/// A unit is the trailing half of a character.
pub open spec fn is_trailing(u: u16) -> bool {
    0xDC00 <= u < 0xE000
}

/// A text begins with both halves of a character.
pub open spec fn begins_with_pair(u: Seq<u16>) -> bool {
    u.len() >= 2 && is_leading(u[0]) && is_trailing(u[1])
}

/// The number of the first character.
pub open spec fn first_number(u: Seq<u16>) -> int {
    if begins_with_pair(u) {
        0x10000 + (u[0] - 0xD800) * 0x400 + (u[1] - 0xDC00)
    } else if is_leading(u[0]) || is_trailing(u[0]) {
        0xFFFD
    } else {
        u[0] as int
    }
}

/// The text of units; a half that stands alone becomes the replacement character.
pub open spec fn decoded(u: Seq<u16>) -> Seq<char>
    decreases u.len(),
{
    if u.len() == 0 {
        Seq::empty()
    } else if begins_with_pair(u) {
        seq![(first_number(u) as u32) as char] + decoded(u.skip(2))
    } else {
        seq![(first_number(u) as u32) as char] + decoded(u.skip(1))
    }
}

/// The units of a text are read as that text.
pub proof fn lemma_wide_round_trip(s: Seq<char>)
    ensures
        decoded(utf16(s)) == s,
    decreases s.len(),
{
    if s.len() > 0 {
        lemma_wide_round_trip(s.skip(1));
        char_is_scalar(s[0]);
        let n = s[0] as u32;
        let rest = utf16(s.skip(1));
        let u = utf16(s);
        assert(seq![s[0]] + s.skip(1) =~= s);
        char_u32_cast(s[0], s[0] as u32);
        if n < 0x10000 {
            assert(u[0] == n as u16);
            assert(u.skip(1) =~= rest);
            assert(!is_leading(u[0]) && !is_trailing(u[0]));
            assert(first_number(u) == n);
        } else {
            assert(u.skip(2) =~= rest);
            assert(begins_with_pair(u));
            assert(first_number(u) == n);
        }
    }
}

// ---------------------------------------------------------------------------
// Encoding and decoding
// ---------------------------------------------------------------------------

/// The units of a text.
pub fn encode_wide(s: &str) -> (r: Vec<u16>)
    ensures
        r@ == utf16(s@),
{
    let chars = text::chars_of(s);
    let mut out: Vec<u16> = Vec::new();
    let mut i: usize = 0;
    proof {
        assert(chars@.skip(0) =~= chars@);
        assert(out@ + utf16(chars@.skip(0)) =~= utf16(chars@));
    }
    while i < chars.len()
        invariant
            i <= chars.len(),
            out@ + utf16(chars@.skip(i as int)) == utf16(chars@),
        decreases chars.len() - i,
    {
        let c: char = chars[i];
        proof {
            char_is_scalar(c);
            assert(chars@.skip(i as int)[0] == c);
            assert(chars@.skip(i as int).skip(1) =~= chars@.skip(i + 1));
        }
        let n: u32 = c as u32;
        let ghost before = out@;
        if n < 0x10000 {
            out.push(n as u16);
        } else {
            let offset: u32 = n - 0x10000;
            out.push((0xD800 + offset / 0x400) as u16);
            out.push((0xDC00 + offset % 0x400) as u16);
        }
        proof {
            assert(out@ =~= before + units(c));
            assert(out@ + utf16(chars@.skip(i + 1)) =~= before + utf16(chars@.skip(i as int)));
        }
        i += 1;
    }
    proof {
        assert(utf16(chars@.skip(i as int)) =~= Seq::<u16>::empty());
        assert(out@ =~= utf16(chars@));
    }
    out
}

/// The text of units; a half that stands alone becomes the replacement character.
pub fn decode_wide(wide: &[u16]) -> (r: String)
    ensures
        r@ == decoded(wide@),
{
    let mut out: Vec<char> = Vec::new();
    let mut i: usize = 0;
    proof {
        assert(wide@.skip(0) =~= wide@);
        assert(out@ + decoded(wide@.skip(0)) =~= decoded(wide@));
    }
    while i < wide.len()
        invariant
            i <= wide.len(),
            out@ + decoded(wide@.skip(i as int)) == decoded(wide@),
        decreases wide.len() - i,
    {
        let ghost rest = wide@.skip(i as int);
        let ghost before = out@;
        let u: u16 = wide[i];
        let leading = 0xD800 <= u && u < 0xDC00;
        let paired = leading && i + 1 < wide.len() && 0xDC00 <= wide[i + 1] && wide[i + 1]
            < 0xE000;
        proof {
            assert(rest[0] == u);
            assert(i + 1 < wide@.len() ==> rest[1] == wide@[i + 1]);
            assert(paired == begins_with_pair(rest));
            assert(rest.skip(1) =~= wide@.skip(i + 1));
            assert(paired ==> rest.skip(2) =~= wide@.skip(i + 2));
        }
        let number: u32 = if paired {
            0x10000 + ((u - 0xD800) as u32) * 0x400 + ((wide[i + 1] - 0xDC00) as u32)
        } else if leading || (0xDC00 <= u && u < 0xE000) {
            0xFFFD
        } else {
            u as u32
        };
        proof {
            assert(number == first_number(rest));
            assert(is_scalar(number));
        }
        if let Some(c) = char::from_u32(number) {
            out.push(c);
            proof {
                char_u32_cast(c, c as u32);
            }
        }
        proof {
            assert(out@ =~= before + seq![(first_number(rest) as u32) as char]);
        }
        i = if paired {
            i + 2
        } else {
            i + 1
        };
        proof {
            assert(out@ + decoded(wide@.skip(i as int)) =~= before + decoded(rest));
        }
    }
    proof {
        assert(decoded(wide@.skip(i as int)) =~= Seq::<char>::empty());
        assert(out@ =~= decoded(wide@));
    }
    text::string_of(out.as_slice())
}

/// The units of a text with a zero behind them.
pub fn wide(value: &str) -> (r: Vec<u16>)
    ensures
        r@ == utf16(value@).push(0),
{
    let mut out = encode_wide(value);
    out.push(0);
    out
}

/// The place of the first zero; the length where there is none.
pub open spec fn zero_place(s: Seq<u16>) -> int
    decreases s.len(),
{
    if s.len() == 0 || s[0] == 0 {
        0
    } else {
        1 + zero_place(s.skip(1))
    }
}

/// The text in a buffer, up to the first zero.
pub fn text_before_zero(buffer: &[u16]) -> (r: String)
    ensures
        r@ == decoded(buffer@.take(zero_place(buffer@))),
{
    let mut n: usize = 0;
    proof {
        assert(buffer@.skip(0) =~= buffer@);
    }
    while n < buffer.len() && buffer[n] != 0
        invariant
            n <= buffer.len(),
            zero_place(buffer@) == n + zero_place(buffer@.skip(n as int)),
        decreases buffer.len() - n,
    {
        proof {
            assert(buffer@.skip(n as int).skip(1) =~= buffer@.skip(n + 1));
        }
        n += 1;
    }
    let mut part: Vec<u16> = Vec::new();
    let mut i: usize = 0;
    while i < n
        invariant
            i <= n <= buffer.len(),
            part@ == buffer@.take(i as int),
        decreases n - i,
    {
        part.push(buffer[i]);
        i += 1;
        proof {
            assert(part@ =~= buffer@.take(i as int));
        }
    }
    decode_wide(part.as_slice())
}

/// What a buffer of a length holds after a text was put into it: as many of its units
/// as leave room for a zero, and zeros behind them.
pub open spec fn fixed(value: Seq<char>, len: int) -> Seq<u16> {
    Seq::new(
        len as nat,
        |i: int|
            if i < len - 1 && i < utf16(value).len() {
                utf16(value)[i]
            } else {
                0
            },
    )
}

/// Puts a text into a buffer of fixed length.
pub fn copy_wide_fixed(target: &mut Vec<u16>, value: &str)
    ensures
        final(target)@ == fixed(value@, old(target)@.len() as int),
{
    let source = encode_wide(value);
    let len: usize = target.len();
    let mut i: usize = 0;
    while i < len
        invariant
            i <= len,
            len == target.len(),
            len == old(target)@.len(),
            source@ == utf16(value@),
            forall|k: int| 0 <= k < i ==> #[trigger] target@[k] == fixed(value@, len as int)[k],
        decreases len - i,
    {
        let unit: u16 = if i < len - 1 && i < source.len() {
            source[i]
        } else {
            0
        };
        target.set(i, unit);
        i += 1;
    }
    proof {
        assert(target@ =~= fixed(value@, len as int));
    }
}

/// The units of a text, cut off at a length and closed by a zero.
pub fn wide_up_to(value: &str, len: usize) -> (r: Vec<u16>)
    ensures
        r@ == (if utf16(value@).len() > len {
            utf16(value@).take(len as int)
        } else {
            utf16(value@)
        }).push(0),
{
    let mut out = encode_wide(value);
    if out.len() > len {
        out.truncate(len);
    }
    out.push(0);
    out
}

// ---------------------------------------------------------------------------
// Bytes
// ---------------------------------------------------------------------------

/// The bytes of units, the lower first.
pub open spec fn unit_bytes(u: Seq<u16>) -> Seq<u8>
    decreases u.len(),
{
    if u.len() == 0 {
        Seq::empty()
    } else {
        unit_bytes(u.drop_last()).push((u.last() % 256) as u8).push((u.last() / 256) as u8)
    }
}

/// The unit of two bytes.
pub open spec fn unit_of(low: u8, high: u8) -> u16 {
    (low + 256 * high) as u16
}

/// The units of bytes.
pub open spec fn byte_units(b: Seq<u8>) -> Seq<u16> {
    Seq::new((b.len() / 2) as nat, |i: int| unit_of(b[2 * i], b[2 * i + 1]))
}

/// The bytes of units are read as those units.
pub proof fn lemma_unit_bytes_round_trip(u: Seq<u16>)
    ensures
        unit_bytes(u).len() == 2 * u.len(),
        byte_units(unit_bytes(u)) == u,
    decreases u.len(),
{
    if u.len() > 0 {
        let before = u.drop_last();
        lemma_unit_bytes_round_trip(before);
        let b = unit_bytes(u);
        let n = before.len() as int;
        assert forall|i: int| 0 <= i < u.len() implies #[trigger] byte_units(b)[i] == u[i] by {
            if i < n {
                assert(byte_units(unit_bytes(before))[i] == before[i]);
                assert(b[2 * i] == unit_bytes(before)[2 * i]);
                assert(b[2 * i + 1] == unit_bytes(before)[2 * i + 1]);
            } else {
                assert(b[2 * n] == (u.last() % 256) as u8);
                assert(b[2 * n + 1] == (u.last() / 256) as u8);
            }
        }
        assert(byte_units(b) =~= u);
    }
}

/// The bytes of units.
pub fn encode_wide_payload(units: &[u16]) -> (r: Vec<u8>)
    ensures
        r@ == unit_bytes(units@),
{
    let mut out: Vec<u8> = Vec::new();
    let mut i: usize = 0;
    proof {
        assert(units@.take(0) =~= Seq::<u16>::empty());
    }
    while i < units.len()
        invariant
            i <= units.len(),
            out@ == unit_bytes(units@.take(i as int)),
        decreases units.len() - i,
    {
        proof {
            assert(units@.take(i + 1).drop_last() =~= units@.take(i as int));
        }
        let u: u16 = units[i];
        out.push((u % 256) as u8);
        out.push((u / 256) as u8);
        i += 1;
    }
    proof {
        assert(units@.take(i as int) =~= units@);
    }
    out
}

/// The units of bytes; none where their number is odd.
pub fn decode_wide_payload(payload: &[u8]) -> (r: Option<Vec<u16>>)
    ensures
        match r {
            Some(units) => payload@.len() % 2 == 0 && units@ == byte_units(payload@),
            None => payload@.len() % 2 == 1,
        },
{
    if payload.len() % 2 != 0 {
        return None;
    }
    let mut out: Vec<u16> = Vec::new();
    let n: usize = payload.len() / 2;
    let mut i: usize = 0;
    while i < n
        invariant
            i <= n,
            2 * n == payload.len(),
            out@.len() == i,
            forall|k: int|
                0 <= k < i ==> #[trigger] out@[k] == unit_of(payload@[2 * k], payload@[2 * k + 1]),
        decreases n - i,
    {
        let low: u16 = payload[2 * i] as u16;
        let high: u16 = payload[2 * i + 1] as u16;
        out.push(low + 256 * high);
        i += 1;
    }
    proof {
        assert(out@ =~= byte_units(payload@));
    }
    Some(out)
}

/// A text in a buffer ends before the first zero, and fills the buffer where there is none.
pub proof fn lemma_first_zero(s: Seq<u16>)
    ensures
        0 <= zero_place(s) <= s.len(),
        forall|i: int| 0 <= i < zero_place(s) ==> #[trigger] s[i] != 0,
        zero_place(s) < s.len() ==> s[zero_place(s)] == 0,
    decreases s.len(),
{
    if s.len() > 0 && s[0] != 0 {
        let rest = s.skip(1);
        lemma_first_zero(rest);
        assert forall|i: int| 0 <= i < zero_place(s) implies #[trigger] s[i] != 0 by {
            if i > 0 {
                assert(rest[i - 1] == s[i]);
            }
        }
        if zero_place(s) < s.len() {
            assert(rest[zero_place(rest)] == s[zero_place(s)]);
        }
    }
}

/// A text in a field of a fixed length is cut short where it does not fit, and always ends with
/// a zero.
pub proof fn lemma_fixed_fields(value: Seq<char>, len: int)
    requires
        len > 0,
    ensures
        fixed(value, len).len() == len,
        fixed(value, len).last() == 0,
        utf16(value).len() < len ==> fixed(value, len).take(utf16(value).len() as int) == utf16(
            value,
        ),
        utf16(value).len() >= len ==> fixed(value, len).take(len - 1) == utf16(value).take(len - 1),
        forall|i: int| utf16(value).len() <= i < len ==> #[trigger] fixed(value, len)[i] == 0,
{
    if utf16(value).len() < len {
        assert(fixed(value, len).take(utf16(value).len() as int) =~= utf16(value));
    } else {
        assert(fixed(value, len).take(len - 1) =~= utf16(value).take(len - 1));
    }
}

/// Characters take one unit below the surrogates and a pair above, a leading one and a trailing
/// one; what stands alone of a pair is read as the mark for what cannot be read.
pub proof fn lemma_units_of_characters(c: char, u: u16)
    ensures
        (c as u32) < 0x10000 ==> units(c).len() == 1 && units(c)[0] == c as u32,
        (c as u32) >= 0x10000 ==> units(c).len() == 2 && 0xD800 <= units(c)[0] < 0xDC00 && 0xDC00
            <= units(c)[1] < 0xE000 && 0x10000 + (units(c)[0] - 0xD800) * 0x400 + (units(c)[1]
            - 0xDC00) == c as u32,
        0xD800 <= u < 0xE000 ==> decoded(seq![u]) == seq!['\u{fffd}'],
{
    let n = c as u32;
    if n >= 0x10000 {
        let offset = (n - 0x10000) as int;
        assert(offset < 0x10_0000);
        assert(offset == 0x400 * (offset / 0x400) + offset % 0x400);
        assert(0 <= offset / 0x400 < 0x400);
    }
    if 0xD800 <= u < 0xE000 {
        let alone = seq![u];
        assert(alone.skip(1) =~= Seq::<u16>::empty());
        assert(decoded(alone.skip(1)) =~= Seq::<char>::empty());
        assert(alone[0] == u);
        assert(first_number(alone) == 0xFFFD);
        assert((0xFFFDu32) as char == '\u{fffd}');
        assert(decoded(alone) =~= seq!['\u{fffd}']);
    }
}

} // verus!
