//! The bytes of the wire format: the heads of CBOR data items, unsigned
//! numbers and texts, written and read.

use vstd::prelude::*;
use vstd::slice::*;
use vstd::string::*;
use vstd::utf8::*;

verus! {

/// Major type of an unsigned number.
pub const MAJOR_UNSIGNED: u8 = 0;

/// Major type of a negative number.
pub const MAJOR_NEGATIVE: u8 = 1;

/// Major type of a text.
pub const MAJOR_TEXT: u8 = 3;

/// Major type of an array.
pub const MAJOR_ARRAY: u8 = 4;

/// Major type of a map.
pub const MAJOR_MAP: u8 = 5;

/// The number of values that `width` bytes can hold.
pub open spec fn limit(width: nat) -> nat
    decreases width,
{
    if width == 0 {
        1
    } else {
        256 * limit((width - 1) as nat)
    }
}

/// The `width` bytes of `value`, most significant first.
pub open spec fn be_bytes(value: nat, width: nat) -> Seq<u8>
    decreases width,
{
    if width == 0 {
        Seq::empty()
    } else {
        be_bytes(value / 256, (width - 1) as nat).push((value % 256) as u8)
    }
}

/// The number that the `width` bytes of `s` from `pos` on hold, most
/// significant first.
pub open spec fn be_value(s: Seq<u8>, pos: int, width: nat) -> nat
    decreases width,
{
    if width == 0 {
        0
    } else {
        be_value(s, pos, (width - 1) as nat) * 256 + s[pos + width - 1] as nat
    }
}

/// Whether the bytes `part` stand in `s` from `pos` on.
pub open spec fn has_at(s: Seq<u8>, pos: int, part: Seq<u8>) -> bool {
    &&& 0 <= pos
    &&& pos + part.len() <= s.len()
    &&& s.subrange(pos, pos + part.len()) == part
}

/// The head of a data item: its major type and its argument, in the
/// shortest form.
pub open spec fn head(major: u8, arg: nat) -> Seq<u8> {
    if arg < 24 {
        seq![(major * 32 + arg) as u8]
    } else if arg < 0x100 {
        seq![(major * 32 + 24) as u8] + be_bytes(arg, 1)
    } else if arg < 0x1_0000 {
        seq![(major * 32 + 25) as u8] + be_bytes(arg, 2)
    } else if arg < 0x1_0000_0000 {
        seq![(major * 32 + 26) as u8] + be_bytes(arg, 4)
    } else {
        seq![(major * 32 + 27) as u8] + be_bytes(arg, 8)
    }
}

/// The number of bytes that follow a first byte with the additional
/// information `info`, where that is a length; else nothing.
pub open spec fn following(info: u8) -> Option<nat> {
    if info < 24 {
        Some(0nat)
    } else if info == 24 {
        Some(1nat)
    } else if info == 25 {
        Some(2nat)
    } else if info == 26 {
        Some(4nat)
    } else if info == 27 {
        Some(8nat)
    } else {
        None
    }
}

/// The head that stands in `s` at `pos`: major type, argument, and the
/// place after it. An argument need not be in its shortest form.
pub open spec fn read_head(s: Seq<u8>, pos: int) -> Option<(u8, nat, int)> {
    if 0 <= pos < s.len() {
        let major = s[pos] / 32;
        let info = s[pos] % 32;
        match following(info) {
            Some(width) => if width == 0 {
                Some((major, info as nat, pos + 1))
            } else if pos + 1 + width <= s.len() {
                Some((major, be_value(s, pos + 1, width), pos + 1 + width))
            } else {
                None
            },
            None => None,
        }
    } else {
        None
    }
}

/// The text `chars` as a data item.
pub open spec fn text_item(chars: Seq<char>) -> Seq<u8> {
    head(MAJOR_TEXT, encode_utf8(chars).len()) + encode_utf8(chars)
}

/// The text that stands in `s` at `pos`, and the place after it.
pub open spec fn read_text(s: Seq<u8>, pos: int) -> Option<(Seq<char>, int)> {
    match read_head(s, pos) {
        Some((major, len, next)) => if major == MAJOR_TEXT && next + len <= s.len() && valid_utf8(
            s.subrange(next, next + len),
        ) {
            Some((decode_utf8(s.subrange(next, next + len)), next + len))
        } else {
            None
        },
        None => None,
    }
}

/// The unsigned number that stands in `s` at `pos`, and the place after it.
pub open spec fn read_unsigned(s: Seq<u8>, pos: int) -> Option<(nat, int)> {
    match read_head(s, pos) {
        Some((major, value, next)) => if major == MAJOR_UNSIGNED {
            Some((value, next))
        } else {
            None
        },
        None => None,
    }
}

/// `width` bytes hold less than `limit(width)`.
pub proof fn lemma_be_value_bound(s: Seq<u8>, pos: int, width: nat)
    ensures
        be_value(s, pos, width) < limit(width),
    decreases width,
{
    if width > 0 {
        lemma_be_value_bound(s, pos, (width - 1) as nat);
    }
}

/// The limits of the widths in use.
pub proof fn lemma_limits()
    ensures
        limit(1) == 0x100,
        limit(2) == 0x1_0000,
        limit(4) == 0x1_0000_0000,
        limit(8) == 0x1_0000_0000_0000_0000,
{
    reveal_with_fuel(limit, 9);
}

/// `be_bytes` makes `width` bytes.
pub proof fn lemma_be_bytes_len(value: nat, width: nat)
    ensures
        be_bytes(value, width).len() == width,
    decreases width,
{
    if width > 0 {
        lemma_be_bytes_len(value / 256, (width - 1) as nat);
    }
}

/// Bytes written by `be_bytes` are read back by `be_value`.
pub proof fn lemma_be_round_trip(s: Seq<u8>, pos: int, value: nat, width: nat)
    requires
        value < limit(width),
        has_at(s, pos, be_bytes(value, width)),
    ensures
        be_value(s, pos, width) == value,
    decreases width,
{
    lemma_be_bytes_len(value, width);
    if width > 0 {
        let shorter = (width - 1) as nat;
        let bytes = be_bytes(value, width);
        lemma_be_bytes_len(value / 256, shorter);
        assert(s.subrange(pos, pos + shorter) =~= bytes.subrange(0, shorter as int));
        assert(bytes.subrange(0, shorter as int) =~= be_bytes(value / 256, shorter));
        assert(s[pos + width - 1] == bytes[width - 1]);
        lemma_be_round_trip(s, pos, value / 256, shorter);
    }
}

/// The length of a head.
pub proof fn lemma_head_len(major: u8, arg: nat)
    ensures
        1 <= head(major, arg).len() <= 9,
{
    lemma_be_bytes_len(arg, 1);
    lemma_be_bytes_len(arg, 2);
    lemma_be_bytes_len(arg, 4);
    lemma_be_bytes_len(arg, 8);
}

/// A head that was written is read back.
pub proof fn lemma_head_round_trip(s: Seq<u8>, pos: int, major: u8, arg: nat)
    requires
        major < 8,
        arg <= u64::MAX,
        has_at(s, pos, head(major, arg)),
    ensures
        read_head(s, pos) == Some((major, arg, pos + head(major, arg).len())),
{
    let h = head(major, arg);
    lemma_head_len(major, arg);
    lemma_limits();
    assert(s[pos] == s.subrange(pos, pos + h.len())[0]);
    assert(s[pos] == h[0]);
    if arg >= 24 {
        let width: nat = if arg < 0x100 {
            1
        } else if arg < 0x1_0000 {
            2
        } else if arg < 0x1_0000_0000 {
            4
        } else {
            8
        };
        lemma_be_bytes_len(arg, width);
        assert(h =~= seq![h[0]] + be_bytes(arg, width));
        assert(s.subrange(pos + 1, pos + 1 + width) =~= h.subrange(1, 1 + width as int));
        assert(h.subrange(1, 1 + width as int) =~= be_bytes(arg, width));
        lemma_be_round_trip(s, pos + 1, arg, width);
    }
}

/// A part of a part stands where it stands in the whole.
pub proof fn lemma_has_at_split(s: Seq<u8>, pos: int, first: Seq<u8>, second: Seq<u8>)
    requires
        has_at(s, pos, first + second),
    ensures
        has_at(s, pos, first),
        has_at(s, pos + first.len(), second),
{
    let both = first + second;
    assert(s.subrange(pos, pos + first.len()) =~= both.subrange(0, first.len() as int));
    assert(both.subrange(0, first.len() as int) =~= first);
    assert(s.subrange(pos + first.len(), pos + first.len() + second.len()) =~= both.subrange(
        first.len() as int,
        both.len() as int,
    ));
    assert(both.subrange(first.len() as int, both.len() as int) =~= second);
}

/// A text that was written is read back.
pub proof fn lemma_text_round_trip(s: Seq<u8>, pos: int, chars: Seq<char>)
    requires
        encode_utf8(chars).len() <= u64::MAX,
        has_at(s, pos, text_item(chars)),
    ensures
        read_text(s, pos) == Some((chars, pos + text_item(chars).len())),
{
    let bytes = encode_utf8(chars);
    let h = head(MAJOR_TEXT, bytes.len());
    lemma_has_at_split(s, pos, h, bytes);
    lemma_head_round_trip(s, pos, MAJOR_TEXT, bytes.len());
    encode_utf8_valid_utf8(chars);
    encode_utf8_decode_utf8(chars);
}

/// An unsigned number that was written is read back.
pub proof fn lemma_unsigned_round_trip(s: Seq<u8>, pos: int, value: nat)
    requires
        value <= u64::MAX,
        has_at(s, pos, head(MAJOR_UNSIGNED, value)),
    ensures
        read_unsigned(s, pos) == Some((value, pos + head(MAJOR_UNSIGNED, value).len())),
{
    lemma_head_round_trip(s, pos, MAJOR_UNSIGNED, value);
}

/// No width in use holds more than a `u64`.
pub proof fn lemma_limit_fits(width: nat)
    requires
        width <= 8,
    ensures
        limit(width) <= 0x1_0000_0000_0000_0000,
        width < 8 ==> limit(width) * 256 <= 0x1_0000_0000_0000_0000,
{
    reveal_with_fuel(limit, 9);
}

/// Appends the `width` bytes of `value`, most significant first.
fn push_be(out: &mut Vec<u8>, value: u64, width: u8)
    requires
        width <= 8,
    ensures
        final(out)@ == old(out)@ + be_bytes(value as nat, width as nat),
    decreases width,
{
    if width > 0 {
        push_be(out, value / 256, width - 1);
        out.push((value % 256) as u8);
        assert(out@ =~= old(out)@ + be_bytes(value as nat, width as nat));
    } else {
        assert(out@ =~= old(out)@ + be_bytes(value as nat, width as nat));
    }
}

/// Appends the head of a data item of major type `major` with the argument
/// `arg`, in the shortest form.
pub fn write_head(out: &mut Vec<u8>, major: u8, arg: u64)
    requires
        major < 8,
    ensures
        final(out)@ == old(out)@ + head(major, arg as nat),
{
    let first: u8 = major * 32;
    if arg < 24 {
        out.push(first + (arg as u8));
        assert(out@ =~= old(out)@ + head(major, arg as nat));
    } else {
        let (info, width): (u8, u8) = if arg < 0x100 {
            (24, 1)
        } else if arg < 0x1_0000 {
            (25, 2)
        } else if arg < 0x1_0000_0000 {
            (26, 4)
        } else {
            (27, 8)
        };
        out.push(first + info);
        push_be(out, arg, width);
        assert(out@ =~= old(out)@ + head(major, arg as nat));
    }
}

/// Reads `width` bytes of `bytes` from `pos` on as a number, most
/// significant first.
fn take_be(bytes: &[u8], pos: usize, width: usize) -> (value: u64)
    requires
        width <= 8,
        pos + width <= bytes@.len(),
    ensures
        value == be_value(bytes@, pos as int, width as nat),
{
    let total = bytes.len();
    let mut value: u64 = 0;
    let mut i: usize = 0;
    while i < width
        invariant
            i <= width <= 8,
            total == bytes@.len(),
            pos + width <= bytes@.len(),
            value == be_value(bytes@, pos as int, i as nat),
        decreases width - i,
    {
        proof {
            lemma_be_value_bound(bytes@, pos as int, i as nat);
            lemma_limit_fits(i as nat);
        }
        value = value * 256 + (bytes[pos + i] as u64);
        i += 1;
    }
    value
}

/// Reads the head of the data item at `pos`: its major type, its argument
/// and the place after it.
pub fn take_head(bytes: &[u8], pos: usize) -> (res: Option<(u8, u64, usize)>)
    ensures
        match res {
            Some((major, arg, next)) => read_head(bytes@, pos as int) == Some(
                (major, arg as nat, next as int),
            ) && pos < next <= bytes@.len(),
            None => read_head(bytes@, pos as int) is None,
        },
{
    if pos >= bytes.len() {
        return None;
    }
    let first = bytes[pos];
    let major = first / 32;
    let info = first % 32;
    if info < 24 {
        return Some((major, info as u64, pos + 1));
    }
    let width: usize = if info == 24 {
        1
    } else if info == 25 {
        2
    } else if info == 26 {
        4
    } else if info == 27 {
        8
    } else {
        return None;
    };
    if bytes.len() - pos - 1 < width {
        return None;
    }
    let value = take_be(bytes, pos + 1, width);
    Some((major, value, pos + 1 + width))
}

/// Appends the unsigned number `value` as a data item.
pub fn write_unsigned(out: &mut Vec<u8>, value: u64)
    ensures
        final(out)@ == old(out)@ + head(MAJOR_UNSIGNED, value as nat),
{
    write_head(out, MAJOR_UNSIGNED, value);
}

/// Reads the unsigned number at `pos`.
pub fn take_unsigned(bytes: &[u8], pos: usize) -> (res: Option<(u64, usize)>)
    ensures
        match res {
            Some((value, next)) => read_unsigned(bytes@, pos as int) == Some(
                (value as nat, next as int),
            ) && pos < next <= bytes@.len(),
            None => read_unsigned(bytes@, pos as int) is None,
        },
{
    match take_head(bytes, pos) {
        Some((major, value, next)) => if major == MAJOR_UNSIGNED {
            Some((value, next))
        } else {
            None
        },
        None => None,
    }
}

/// Appends the text `text` as a data item.
pub fn write_text(out: &mut Vec<u8>, text: &str)
    ensures
        final(out)@ == old(out)@ + text_item(text@),
        encode_utf8(text@).len() <= u64::MAX,
{
    let bytes = text.as_bytes();
    write_head(out, MAJOR_TEXT, bytes.len() as u64);
    let ghost mid = out@;
    out.extend_from_slice(bytes);
    assert(out@ =~= mid + bytes@);
    assert(out@ =~= old(out)@ + text_item(text@));
}

/// `core::str::from_utf8` of the standard library. What is said of it here is
/// taken from its documentation and not proved: it gives a text exactly for
/// the byte sequences that are valid UTF-8, and the text it gives is made of
/// the very bytes it was given.
#[verifier::external_body]
fn text_of_utf8(bytes: &[u8]) -> (text: Option<&str>)
    ensures
        text is Some <==> valid_utf8(bytes@),
        text matches Some(s) ==> encode_utf8(s@) == bytes@,
{
    match core::str::from_utf8(bytes) {
        Ok(text) => Some(text),
        Err(_) => None,
    }
}

/// Reads the text at `pos`.
pub fn take_text(bytes: &[u8], pos: usize) -> (res: Option<(String, usize)>)
    ensures
        match res {
            Some((text, next)) => read_text(bytes@, pos as int) == Some((text@, next as int))
                && pos < next <= bytes@.len(),
            None => read_text(bytes@, pos as int) is None,
        },
{
    match take_head(bytes, pos) {
        Some((major, len, next)) => {
            if major != MAJOR_TEXT || len > (bytes.len() - next) as u64 {
                return None;
            }
            let end = next + (len as usize);
            match text_of_utf8(slice_subrange(bytes, next, end)) {
                Some(text) => {
                    proof {
                        encode_utf8_decode_utf8(text@);
                    }
                    Some((String::from_str(text), end))
                },
                None => None,
            }
        },
        None => None,
    }
}

} // verus!
