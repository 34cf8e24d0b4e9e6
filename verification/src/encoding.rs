//! The five text encodings of an XMP packet: detection, decoding and
//! encoding.

use vstd::prelude::*;
use vstd::string::*;
use vstd::utf8::*;

use crate::error;
use crate::error::{ErrorView, XmpError};
use crate::text;
use crate::text::{append_all, chars_of, copy_range, utf8_text};

verus! {

/// Character encoding carried by an XMP packet.
#[derive(Debug, Clone, Copy, PartialEq, Eq, Structural)]
#[non_exhaustive]
pub enum XmpEncoding {
    /// UTF-8, with or without its optional byte-order mark.
    Utf8,
    /// Big-endian UTF-16.
    Utf16Be,
    /// Little-endian UTF-16.
    Utf16Le,
    /// Big-endian UTF-32.
    Utf32Be,
    /// Little-endian UTF-32.
    Utf32Le,
}

impl XmpEncoding {
    /// Detects an XMP packet's text encoding from its BOM or XML leading-byte pattern.
    #[must_use]
    pub fn detect(bytes: &[u8]) -> (r: Self)
        ensures
            r == detected(bytes@).0,
    {
        detect_encoding(bytes).0
    }
}

// ---------------------------------------------------------------------------------------------
// Detection
// ---------------------------------------------------------------------------------------------

/// The byte-order mark (`U+FEFF`) of an encoding.
pub open spec fn byte_order_mark(encoding: XmpEncoding) -> Seq<u8> {
    match encoding {
        XmpEncoding::Utf8 => seq![0xEFu8, 0xBB, 0xBF],
        XmpEncoding::Utf16Be => seq![0xFEu8, 0xFF],
        XmpEncoding::Utf16Le => seq![0xFFu8, 0xFE],
        XmpEncoding::Utf32Be => seq![0x00u8, 0x00, 0xFE, 0xFF],
        XmpEncoding::Utf32Le => seq![0xFFu8, 0xFE, 0x00, 0x00],
    }
}

/// Whether `b` begins with the four given bytes.
pub open spec fn begins4(b: Seq<u8>, b0: u8, b1: u8, b2: u8, b3: u8) -> bool {
    b.len() >= 4 && b[0] == b0 && b[1] == b1 && b[2] == b2 && b[3] == b3
}

/// Whether `b` begins with the two given bytes.
pub open spec fn begins2(b: Seq<u8>, b0: u8, b1: u8) -> bool {
    b.len() >= 2 && b[0] == b0 && b[1] == b1
}

/// The encoding that the leading bytes show, and whether they are its byte-order mark. The longer
/// marks are tried before the shorter ones, and every mark before the patterns of `<` and
/// `<?`.
pub open spec fn detected(b: Seq<u8>) -> (XmpEncoding, bool) {
    if begins4(b, 0x00, 0x00, 0xFE, 0xFF) {
        (XmpEncoding::Utf32Be, true)
    } else if begins4(b, 0xFF, 0xFE, 0x00, 0x00) {
        (XmpEncoding::Utf32Le, true)
    } else if begins2(b, 0xFE, 0xFF) {
        (XmpEncoding::Utf16Be, true)
    } else if begins2(b, 0xFF, 0xFE) {
        (XmpEncoding::Utf16Le, true)
    } else if begins2(b, 0xEF, 0xBB) && b.len() >= 3 && b[2] == 0xBF {
        (XmpEncoding::Utf8, true)
    } else if begins4(b, 0x00, 0x00, 0x00, 0x3C) {
        (XmpEncoding::Utf32Be, false)
    } else if begins4(b, 0x3C, 0x00, 0x00, 0x00) {
        (XmpEncoding::Utf32Le, false)
    } else if begins4(b, 0x00, 0x3C, 0x00, 0x3F) {
        (XmpEncoding::Utf16Be, false)
    } else if begins4(b, 0x3C, 0x00, 0x3F, 0x00) {
        (XmpEncoding::Utf16Le, false)
    } else {
        (XmpEncoding::Utf8, false)
    }
}

/// The number of bytes of the byte-order mark at the front of `b`.
pub open spec fn mark_length(b: Seq<u8>) -> int {
    let (encoding, had_bom) = detected(b);
    if had_bom {
        byte_order_mark(encoding).len() as int
    } else {
        0
    }
}

/// What `b` holds after its byte-order mark.
pub open spec fn after_mark(b: Seq<u8>) -> Seq<u8> {
    b.subrange(mark_length(b), b.len() as int)
}

fn has4(b: &[u8], b0: u8, b1: u8, b2: u8, b3: u8) -> (r: bool)
    ensures
        r == begins4(b@, b0, b1, b2, b3),
{
    b.len() >= 4 && b[0] == b0 && b[1] == b1 && b[2] == b2 && b[3] == b3
}

fn has2(b: &[u8], b0: u8, b1: u8) -> (r: bool)
    ensures
        r == begins2(b@, b0, b1),
{
    b.len() >= 2 && b[0] == b0 && b[1] == b1
}

/// The encoding of `bytes`, whether they carry its byte-order mark, and the length of that mark.
pub fn detect_encoding(bytes: &[u8]) -> (r: (XmpEncoding, bool, usize))
    ensures
        (r.0, r.1) == detected(bytes@),
        r.2 == mark_length(bytes@),
        r.2 <= bytes@.len(),
{
    if has4(bytes, 0x00, 0x00, 0xFE, 0xFF) {
        (XmpEncoding::Utf32Be, true, 4)
    } else if has4(bytes, 0xFF, 0xFE, 0x00, 0x00) {
        (XmpEncoding::Utf32Le, true, 4)
    } else if has2(bytes, 0xFE, 0xFF) {
        (XmpEncoding::Utf16Be, true, 2)
    } else if has2(bytes, 0xFF, 0xFE) {
        (XmpEncoding::Utf16Le, true, 2)
    } else if has2(bytes, 0xEF, 0xBB) && bytes.len() >= 3 && bytes[2] == 0xBF {
        (XmpEncoding::Utf8, true, 3)
    } else if has4(bytes, 0x00, 0x00, 0x00, 0x3C) {
        (XmpEncoding::Utf32Be, false, 0)
    } else if has4(bytes, 0x3C, 0x00, 0x00, 0x00) {
        (XmpEncoding::Utf32Le, false, 0)
    } else if has4(bytes, 0x00, 0x3C, 0x00, 0x3F) {
        (XmpEncoding::Utf16Be, false, 0)
    } else if has4(bytes, 0x3C, 0x00, 0x3F, 0x00) {
        (XmpEncoding::Utf16Le, false, 0)
    } else {
        (XmpEncoding::Utf8, false, 0)
    }
}

// ---------------------------------------------------------------------------------------------
// UTF-16
// ---------------------------------------------------------------------------------------------

/// The UTF-16 code units of a character.
pub open spec fn char_units(c: char) -> Seq<u16> {
    let scalar = c as int;
    if scalar < 0x10000 {
        seq![scalar as u16]
    } else {
        seq![
            (0xD800 + (scalar - 0x10000) / 0x400) as u16,
            (0xDC00 + (scalar - 0x10000) % 0x400) as u16,
        ]
    }
}

/// The two bytes of a code unit in the given byte order.
pub open spec fn unit_bytes(big: bool, unit: u16) -> Seq<u8> {
    let high = (unit / 256) as u8;
    let low = (unit % 256) as u8;
    if big {
        seq![high, low]
    } else {
        seq![low, high]
    }
}

/// The bytes of a character in UTF-16.
pub open spec fn char_bytes16(big: bool, c: char) -> Seq<u8> {
    let units = char_units(c);
    if units.len() == 1 {
        unit_bytes(big, units[0])
    } else {
        unit_bytes(big, units[0]) + unit_bytes(big, units[1])
    }
}

/// The bytes of a text in UTF-16.
pub open spec fn utf16_bytes(big: bool, text: Seq<char>) -> Seq<u8>
    decreases text.len(),
{
    if text.len() == 0 {
        Seq::empty()
    } else {
        char_bytes16(big, text[0]) + utf16_bytes(big, text.drop_first())
    }
}

/// The code unit that two bytes hold in the given byte order.
pub open spec fn unit_of(big: bool, first: u8, second: u8) -> u16 {
    if big {
        (first * 256 + second) as u16
    } else {
        (second * 256 + first) as u16
    }
}

/// The code units that an even number of bytes holds.
pub open spec fn units_of(big: bool, b: Seq<u8>) -> Seq<u16> {
    Seq::new((b.len() / 2) as nat, |i: int| unit_of(big, b[2 * i], b[2 * i + 1]))
}

/// Whether `unit` is the first half of a surrogate pair.
pub open spec fn is_high_surrogate(unit: u16) -> bool {
    0xD800 <= unit <= 0xDBFF
}

/// Whether `unit` is the second half of a surrogate pair.
pub open spec fn is_low_surrogate(unit: u16) -> bool {
    0xDC00 <= unit <= 0xDFFF
}

/// The scalar that a surrogate pair stands for.
pub open spec fn pair_scalar(high: u16, low: u16) -> int {
    0x10000 + (high - 0xD800) * 0x400 + (low - 0xDC00)
}

/// The text that code units hold; `None` when a surrogate stands outside a pair.
pub open spec fn utf16_text(units: Seq<u16>) -> Option<Seq<char>>
    decreases units.len(),
{
    if units.len() == 0 {
        Some(Seq::empty())
    } else if !is_high_surrogate(units[0]) && !is_low_surrogate(units[0]) {
        match utf16_text(units.skip(1)) {
            Some(rest) => Some(seq![units[0] as char] + rest),
            None => None,
        }
    } else if is_high_surrogate(units[0]) && units.len() >= 2 && is_low_surrogate(units[1]) {
        match utf16_text(units.skip(2)) {
            Some(rest) => Some(seq![pair_scalar(units[0], units[1]) as char] + rest),
            None => None,
        }
    } else {
        None
    }
}

/// `char::from_u32` gives the character of a Unicode scalar value, and nothing for a surrogate or
/// a number beyond the last scalar.
pub assume_specification[ char::from_u32 ](scalar: u32) -> (r: Option<char>)
    ensures
        r == (if is_scalar(scalar) {
            Some(scalar as char)
        } else {
            None
        }),
;

fn read_unit(big: bool, first: u8, second: u8) -> (r: u16)
    ensures
        r == unit_of(big, first, second),
{
    if big {
        (first as u16) * 256 + (second as u16)
    } else {
        (second as u16) * 256 + (first as u16)
    }
}

/// The text of UTF-16 bytes.
pub fn decode_utf16(bytes: &[u8], big: bool) -> (r: Result<String, XmpError>)
    ensures
        error::outcome(r) == decoded16(big, bytes@),
{
    if bytes.len() % 2 != 0 {
        return Err(XmpError::Encoding("UTF-16 packet has an odd byte length"));
    }
    let ghost units = units_of(big, bytes@);
    let count: usize = bytes.len() / 2;
    let mut text: String = String::new();
    let mut i: usize = 0;
    assert(units.skip(0) =~= units);
    while i < count
        invariant
            i <= count,
            bytes@.len() == 2 * count,
            2 * count <= usize::MAX,
            units == units_of(big, bytes@),
            units.len() == count,
            utf16_text(units) == (match utf16_text(units.skip(i as int)) {
                Some(rest) => Some(text@ + rest),
                None => None,
            }),
        decreases count - i,
    {
        let unit = read_unit(big, bytes[2 * i], bytes[2 * i + 1]);
        assert(units.skip(i as int)[0] == unit);
        let ghost before = text@;
        if unit < 0xD800 || unit > 0xDFFF {
            assert(units.skip(i as int).skip(1) =~= units.skip(i + 1));
            match char::from_u32(unit as u32) {
                Some(c) => {
                    text.push(c);
                    proof {
                        if let Some(rest) = utf16_text(units.skip(i + 1)) {
                            assert(before + (seq![c] + rest) =~= text@ + rest);
                        }
                    }
                },
                None => {
                    assert(false);
                },
            }
            i = i + 1;
        } else {
            if unit > 0xDBFF || i + 1 >= count {
                return Err(
                    XmpError::Encoding("UTF-16 packet contains an invalid surrogate"),
                );
            }
            let second = read_unit(big, bytes[2 * i + 2], bytes[2 * i + 3]);
            assert(units.skip(i as int)[1] == second) by {
                assert(units[i + 1] == unit_of(big, bytes@[2 * (i + 1)], bytes@[2 * (i + 1) + 1]));
            }
            if second < 0xDC00 || second > 0xDFFF {
                return Err(
                    XmpError::Encoding("UTF-16 packet contains an invalid surrogate"),
                );
            }
            let scalar: u32 = 0x10000 + ((unit - 0xD800) as u32) * 0x400 + ((second - 0xDC00) as u32);
            assert(units.skip(i as int).skip(2) =~= units.skip(i + 2));
            match char::from_u32(scalar) {
                Some(c) => {
                    text.push(c);
                    proof {
                        assert(c == pair_scalar(unit, second) as char);
                        if let Some(rest) = utf16_text(units.skip(i + 2)) {
                            assert(before + (seq![c] + rest) =~= text@ + rest);
                        }
                    }
                },
                None => {
                    assert(false);
                },
            }
            i = i + 2;
        }
    }
    assert(units.skip(count as int).len() == 0);
    assert(text@ + Seq::<char>::empty() =~= text@);
    Ok(text)
}

/// The text of UTF-16 bytes, or why they hold none.
pub open spec fn decoded16(big: bool, b: Seq<u8>) -> Result<Seq<char>, ErrorView> {
    if b.len() % 2 != 0 {
        Err(ErrorView::Encoding("UTF-16 packet has an odd byte length"@))
    } else {
        match utf16_text(units_of(big, b)) {
            Some(text) => Ok(text),
            None => Err(ErrorView::Encoding("UTF-16 packet contains an invalid surrogate"@)),
        }
    }
}

// ---------------------------------------------------------------------------------------------
// UTF-32
// ---------------------------------------------------------------------------------------------

/// The four bytes of a scalar value in the given byte order.
pub open spec fn char_bytes32(big: bool, c: char) -> Seq<u8> {
    let scalar = c as int;
    let b0 = (scalar / 0x1000000) as u8;
    let b1 = (scalar / 0x10000 % 256) as u8;
    let b2 = (scalar / 0x100 % 256) as u8;
    let b3 = (scalar % 256) as u8;
    if big {
        seq![b0, b1, b2, b3]
    } else {
        seq![b3, b2, b1, b0]
    }
}

/// The bytes of a text in UTF-32.
pub open spec fn utf32_bytes(big: bool, text: Seq<char>) -> Seq<u8>
    decreases text.len(),
{
    if text.len() == 0 {
        Seq::empty()
    } else {
        char_bytes32(big, text[0]) + utf32_bytes(big, text.drop_first())
    }
}

/// The number that four bytes hold in the given byte order.
pub open spec fn word_of(big: bool, b0: u8, b1: u8, b2: u8, b3: u8) -> u32 {
    if big {
        (b0 * 0x1000000 + b1 * 0x10000 + b2 * 0x100 + b3) as u32
    } else {
        (b3 * 0x1000000 + b2 * 0x10000 + b1 * 0x100 + b0) as u32
    }
}

/// The text that groups of four bytes hold; `None` when one of them is no Unicode scalar value.
pub open spec fn utf32_text(big: bool, b: Seq<u8>) -> Option<Seq<char>>
    decreases b.len(),
{
    if b.len() < 4 {
        Some(Seq::empty())
    } else {
        let scalar = word_of(big, b[0], b[1], b[2], b[3]);
        if is_scalar(scalar) {
            match utf32_text(big, b.skip(4)) {
                Some(rest) => Some(seq![scalar as char] + rest),
                None => None,
            }
        } else {
            None
        }
    }
}

/// The text of UTF-32 bytes, or why they hold none.
pub open spec fn decoded32(big: bool, b: Seq<u8>) -> Result<Seq<char>, ErrorView> {
    if b.len() % 4 != 0 {
        Err(ErrorView::Encoding("UTF-32 packet has an incomplete code unit"@))
    } else {
        match utf32_text(big, b) {
            Some(text) => Ok(text),
            None => Err(ErrorView::Encoding("UTF-32 packet contains an invalid Unicode scalar"@)),
        }
    }
}

fn read_word(big: bool, b0: u8, b1: u8, b2: u8, b3: u8) -> (r: u32)
    ensures
        r == word_of(big, b0, b1, b2, b3),
{
    if big {
        (b0 as u32) * 0x1000000 + (b1 as u32) * 0x10000 + (b2 as u32) * 0x100 + (b3 as u32)
    } else {
        (b3 as u32) * 0x1000000 + (b2 as u32) * 0x10000 + (b1 as u32) * 0x100 + (b0 as u32)
    }
}

/// The text of UTF-32 bytes.
pub fn decode_utf32(bytes: &[u8], big: bool) -> (r: Result<String, XmpError>)
    ensures
        error::outcome(r) == decoded32(big, bytes@),
{
    if bytes.len() % 4 != 0 {
        return Err(XmpError::Encoding("UTF-32 packet has an incomplete code unit"));
    }
    let length: usize = bytes.len();
    let mut text: String = String::new();
    let mut i: usize = 0;
    assert(bytes@.skip(0) =~= bytes@);
    while i < length
        invariant
            i <= length,
            i % 4 == 0,
            length % 4 == 0,
            bytes@.len() == length,
            utf32_text(big, bytes@) == (match utf32_text(big, bytes@.skip(i as int)) {
                Some(rest) => Some(text@ + rest),
                None => None,
            }),
        decreases length - i,
    {
        let ghost tail = bytes@.skip(i as int);
        let ghost before = text@;
        let scalar = read_word(big, bytes[i], bytes[i + 1], bytes[i + 2], bytes[i + 3]);
        assert(scalar == word_of(big, tail[0], tail[1], tail[2], tail[3]));
        match char::from_u32(scalar) {
            Some(c) => {
                text.push(c);
                proof {
                    assert(tail.skip(4) =~= bytes@.skip(i + 4));
                    if let Some(rest) = utf32_text(big, bytes@.skip(i + 4)) {
                        assert(before + (seq![c] + rest) =~= text@ + rest);
                    }
                }
            },
            None => {
                return Err(
                    XmpError::Encoding("UTF-32 packet contains an invalid Unicode scalar"),
                );
            },
        }
        i = i + 4;
    }
    assert(text@ + Seq::<char>::empty() =~= text@);
    Ok(text)
}

// ---------------------------------------------------------------------------------------------
// Packets
// ---------------------------------------------------------------------------------------------

/// The text of UTF-8 bytes, or why they hold none.
pub open spec fn decoded8(b: Seq<u8>) -> Result<Seq<char>, ErrorView> {
    if valid_utf8(b) {
        Ok(decode_utf8(b))
    } else {
        Err(ErrorView::Encoding("packet is not valid UTF-8"@))
    }
}

/// The text that bytes hold in an encoding, or why they hold none.
pub open spec fn decoded_as(encoding: XmpEncoding, b: Seq<u8>) -> Result<Seq<char>, ErrorView> {
    match encoding {
        XmpEncoding::Utf8 => decoded8(b),
        XmpEncoding::Utf16Be => decoded16(true, b),
        XmpEncoding::Utf16Le => decoded16(false, b),
        XmpEncoding::Utf32Be => decoded32(true, b),
        XmpEncoding::Utf32Le => decoded32(false, b),
    }
}

/// The encoding of a packet, whether it carries the byte-order mark, and its text.
pub open spec fn decoded_packet(b: Seq<u8>) -> Result<(XmpEncoding, bool, Seq<char>), ErrorView> {
    let (encoding, had_bom) = detected(b);
    match decoded_as(encoding, after_mark(b)) {
        Ok(text) => Ok((encoding, had_bom, text)),
        Err(error) => Err(error),
    }
}

/// Decodes a packet: its encoding, whether it carries the byte-order mark, and its text.
pub fn decode_packet(bytes: &[u8]) -> (r: Result<(XmpEncoding, bool, String), XmpError>)
    ensures
        match r {
            Ok((encoding, had_bom, text)) => decoded_packet(bytes@) == Ok::<_, ErrorView>(
                (encoding, had_bom, text@),
            ),
            Err(error) => decoded_packet(bytes@) == Err::<(XmpEncoding, bool, Seq<char>), _>(error@),
        },
{
    let (encoding, had_bom, mark) = detect_encoding(bytes);
    let body = copy_range(bytes, mark, bytes.len());
    let decoded = match encoding {
        XmpEncoding::Utf8 => match utf8_text(body.as_slice()) {
            Some(text) => Ok(text),
            None => Err(XmpError::Encoding("packet is not valid UTF-8")),
        },
        XmpEncoding::Utf16Be => decode_utf16(body.as_slice(), true),
        XmpEncoding::Utf16Le => decode_utf16(body.as_slice(), false),
        XmpEncoding::Utf32Be => decode_utf32(body.as_slice(), true),
        XmpEncoding::Utf32Le => decode_utf32(body.as_slice(), false),
    };
    match decoded {
        Ok(text) => Ok((encoding, had_bom, text)),
        Err(error) => Err(error),
    }
}

/// The bytes of a text in an encoding.
pub open spec fn encoded_text(encoding: XmpEncoding, text: Seq<char>) -> Seq<u8> {
    match encoding {
        XmpEncoding::Utf8 => encode_utf8(text),
        XmpEncoding::Utf16Be => utf16_bytes(true, text),
        XmpEncoding::Utf16Le => utf16_bytes(false, text),
        XmpEncoding::Utf32Be => utf32_bytes(true, text),
        XmpEncoding::Utf32Le => utf32_bytes(false, text),
    }
}

/// The bytes of a packet: the byte-order mark when it is asked for, then the text.
pub open spec fn encoded_packet(text: Seq<char>, encoding: XmpEncoding, with_bom: bool) -> Seq<u8> {
    if with_bom {
        byte_order_mark(encoding) + encoded_text(encoding, text)
    } else {
        encoded_text(encoding, text)
    }
}

fn push_unit(bytes: &mut Vec<u8>, big: bool, unit: u16)
    ensures
        final(bytes)@ == old(bytes)@ + unit_bytes(big, unit),
{
    let high: u8 = (unit / 256) as u8;
    let low: u8 = (unit % 256) as u8;
    if big {
        bytes.push(high);
        bytes.push(low);
    } else {
        bytes.push(low);
        bytes.push(high);
    }
    assert(bytes@ =~= old(bytes)@ + unit_bytes(big, unit));
}

fn push_utf16(bytes: &mut Vec<u8>, big: bool, c: char)
    ensures
        final(bytes)@ == old(bytes)@ + char_bytes16(big, c),
{
    let scalar: u32 = c as u32;
    if scalar < 0x10000 {
        push_unit(bytes, big, scalar as u16);
    } else {
        let offset: u32 = scalar - 0x10000;
        let high: u16 = (0xD800 + offset / 0x400) as u16;
        let low: u16 = (0xDC00 + offset % 0x400) as u16;
        push_unit(bytes, big, high);
        push_unit(bytes, big, low);
        assert(bytes@ =~= old(bytes)@ + char_bytes16(big, c));
    }
}

fn push_utf32(bytes: &mut Vec<u8>, big: bool, c: char)
    ensures
        final(bytes)@ == old(bytes)@ + char_bytes32(big, c),
{
    let scalar: u32 = c as u32;
    let b0: u8 = (scalar / 0x1000000) as u8;
    let b1: u8 = (scalar / 0x10000 % 256) as u8;
    let b2: u8 = (scalar / 0x100 % 256) as u8;
    let b3: u8 = (scalar % 256) as u8;
    if big {
        bytes.push(b0);
        bytes.push(b1);
        bytes.push(b2);
        bytes.push(b3);
    } else {
        bytes.push(b3);
        bytes.push(b2);
        bytes.push(b1);
        bytes.push(b0);
    }
    assert(bytes@ =~= old(bytes)@ + char_bytes32(big, c));
}

/// Appends a text in UTF-16 (`wide` false) or UTF-32 (`wide` true).
fn append_units(bytes: &mut Vec<u8>, text: &str, wide: bool, big: bool)
    ensures
        final(bytes)@ == old(bytes)@ + (if wide {
            utf32_bytes(big, text@)
        } else {
            utf16_bytes(big, text@)
        }),
{
    let chars = chars_of(text);
    let mut i: usize = 0;
    assert(text@.skip(0) =~= text@);
    while i < chars.len()
        invariant
            i <= chars@.len(),
            chars@ == text@,
            old(bytes)@ + (if wide {
                utf32_bytes(big, text@)
            } else {
                utf16_bytes(big, text@)
            }) == bytes@ + (if wide {
                utf32_bytes(big, text@.skip(i as int))
            } else {
                utf16_bytes(big, text@.skip(i as int))
            }),
        decreases chars@.len() - i,
    {
        let ghost before = bytes@;
        let ghost rest = text@.skip(i as int);
        assert(rest.drop_first() =~= text@.skip(i + 1));
        if wide {
            push_utf32(bytes, big, chars[i]);
            assert(before + (char_bytes32(big, rest[0]) + utf32_bytes(big, text@.skip(i + 1)))
                =~= bytes@ + utf32_bytes(big, text@.skip(i + 1)));
        } else {
            push_utf16(bytes, big, chars[i]);
            assert(before + (char_bytes16(big, rest[0]) + utf16_bytes(big, text@.skip(i + 1)))
                =~= bytes@ + utf16_bytes(big, text@.skip(i + 1)));
        }
        i = i + 1;
    }
    assert(bytes@ + Seq::<u8>::empty() =~= bytes@);
}

/// Appends the byte-order mark of an encoding.
fn append_mark(bytes: &mut Vec<u8>, encoding: XmpEncoding)
    ensures
        final(bytes)@ == old(bytes)@ + byte_order_mark(encoding),
{
    match encoding {
        XmpEncoding::Utf8 => {
            bytes.push(0xEF);
            bytes.push(0xBB);
            bytes.push(0xBF);
        },
        XmpEncoding::Utf16Be => {
            bytes.push(0xFE);
            bytes.push(0xFF);
        },
        XmpEncoding::Utf16Le => {
            bytes.push(0xFF);
            bytes.push(0xFE);
        },
        XmpEncoding::Utf32Be => {
            bytes.push(0x00);
            bytes.push(0x00);
            bytes.push(0xFE);
            bytes.push(0xFF);
        },
        XmpEncoding::Utf32Le => {
            bytes.push(0xFF);
            bytes.push(0xFE);
            bytes.push(0x00);
            bytes.push(0x00);
        },
    }
    assert(bytes@ =~= old(bytes)@ + byte_order_mark(encoding));
}

/// Encodes a packet's text, with the byte-order mark of the encoding when `with_bom` asks for it.
pub fn encode_packet(text: &str, encoding: XmpEncoding, with_bom: bool) -> (r: Vec<u8>)
    ensures
        r@ == encoded_packet(text@, encoding, with_bom),
{
    let mut bytes: Vec<u8> = Vec::new();
    if with_bom {
        append_mark(&mut bytes, encoding);
    }
    match encoding {
        XmpEncoding::Utf8 => append_all(&mut bytes, text.as_bytes()),
        XmpEncoding::Utf16Be => append_units(&mut bytes, text, false, true),
        XmpEncoding::Utf16Le => append_units(&mut bytes, text, false, false),
        XmpEncoding::Utf32Be => append_units(&mut bytes, text, true, true),
        XmpEncoding::Utf32Le => append_units(&mut bytes, text, true, false),
    }
    assert(bytes@ =~= encoded_packet(text@, encoding, with_bom));
    bytes
}

// ---------------------------------------------------------------------------------------------
// Laws
// ---------------------------------------------------------------------------------------------

/// The number of a character: a Unicode scalar value, the same in every integer type.
proof fn lemma_char_value(c: char)
    ensures
        is_scalar(c as u32),
        c as u32 == c as int,
        0 <= (c as int) < 0x110000,
        !(0xD800 <= (c as int) <= 0xDFFF),
{
}

/// Decoding the UTF-16 bytes of a text gives the text back.
pub proof fn lemma_utf16_round_trip(big: bool, text: Seq<char>)
    ensures
        decoded16(big, utf16_bytes(big, text)) == Ok::<Seq<char>, ErrorView>(text),
    decreases text.len(),
{
    let b = utf16_bytes(big, text);
    if text.len() == 0 {
        assert(units_of(big, b).len() == 0);
        assert(text =~= Seq::<char>::empty());
    } else {
        let c = text[0];
        let tail = text.drop_first();
        let rest = utf16_bytes(big, tail);
        lemma_utf16_round_trip(big, tail);
        lemma_char_value(c);
        let units = units_of(big, b);
        let rest_units = units_of(big, rest);
        if (c as int) < 0x10000 {
            assert(char_bytes16(big, c).len() == 2);
            assert(units[0] == c as int);
            assert forall|i: int| 0 <= i < rest_units.len() implies units[i + 1]
                == rest_units[i] by {
                assert(b[2 * (i + 1)] == rest[2 * i]);
                assert(b[2 * (i + 1) + 1] == rest[2 * i + 1]);
            }
            assert(units.skip(1) =~= rest_units);
            assert(seq![units[0] as char] + tail =~= text);
        } else {
            assert(char_bytes16(big, c).len() == 4);
            let offset = (c as int) - 0x10000;
            assert(units[0] == 0xD800 + offset / 0x400);
            assert(units[1] == 0xDC00 + offset % 0x400) by {
                assert(units[1] == unit_of(big, b[2], b[3]));
            }
            assert forall|i: int| 0 <= i < rest_units.len() implies units[i + 2]
                == rest_units[i] by {
                assert(b[2 * (i + 2)] == rest[2 * i]);
                assert(b[2 * (i + 2) + 1] == rest[2 * i + 1]);
            }
            assert(units.skip(2) =~= rest_units);
            assert(pair_scalar(units[0], units[1]) == c as int);
            assert(seq![pair_scalar(units[0], units[1]) as char] + tail =~= text);
        }
    }
}

/// Decoding the UTF-32 bytes of a text gives the text back.
pub proof fn lemma_utf32_round_trip(big: bool, text: Seq<char>)
    ensures
        decoded32(big, utf32_bytes(big, text)) == Ok::<Seq<char>, ErrorView>(text),
    decreases text.len(),
{
    let b = utf32_bytes(big, text);
    if text.len() == 0 {
        assert(text =~= Seq::<char>::empty());
    } else {
        let c = text[0];
        let tail = text.drop_first();
        lemma_utf32_round_trip(big, tail);
        lemma_char_value(c);
        assert(b.skip(4) =~= utf32_bytes(big, tail));
        let scalar = word_of(big, b[0], b[1], b[2], b[3]);
        assert(scalar == c as int);
        assert(scalar == c as u32);
        assert(is_scalar(scalar));
        assert(seq![scalar as char] + tail =~= text);
    }
}

/// Decoding the bytes of a text in the encoding they were written in gives the text back.
pub proof fn law_text_survives_its_encoding(encoding: XmpEncoding, text: Seq<char>)
    ensures
        decoded_as(encoding, encoded_text(encoding, text)) == Ok::<Seq<char>, ErrorView>(text),
{
    match encoding {
        XmpEncoding::Utf8 => {
            text::lemma_text_bytes(text);
        },
        XmpEncoding::Utf16Be => {
            lemma_utf16_round_trip(true, text);
        },
        XmpEncoding::Utf16Le => {
            lemma_utf16_round_trip(false, text);
        },
        XmpEncoding::Utf32Be => {
            lemma_utf32_round_trip(true, text);
        },
        XmpEncoding::Utf32Le => {
            lemma_utf32_round_trip(false, text);
        },
    }
}

/// Whether `text` begins with the four given characters.
pub open spec fn opens_with4(text: Seq<char>, c0: char, c1: char, c2: char, c3: char) -> bool {
    text.len() >= 4 && text[0] == c0 && text[1] == c1 && text[2] == c2 && text[3] == c3
}

/// Whether a packet of this text shows its encoding and its byte-order mark by its leading bytes.
///
/// With a mark only little-endian UTF-16 text that begins with NUL fails, since its mark then
/// reads as the one of UTF-32. Without a mark a wide packet has to begin with `<?` (UTF-16) or `<`
/// (UTF-32), and a UTF-8 one must not begin with `U+FEFF` or with what reads as a wide pattern.
pub open spec fn self_describing(text: Seq<char>, encoding: XmpEncoding, with_bom: bool) -> bool {
    match (encoding, with_bom) {
        (XmpEncoding::Utf16Le, true) => !(text.len() > 0 && text[0] == '\0'),
        (_, true) => true,
        (XmpEncoding::Utf16Be, false) => text.len() >= 2 && text[0] == '<' && text[1] == '?',
        (XmpEncoding::Utf16Le, false) => text.len() >= 2 && text[0] == '<' && text[1] == '?',
        (XmpEncoding::Utf32Be, false) => text.len() >= 1 && text[0] == '<',
        (XmpEncoding::Utf32Le, false) => text.len() >= 1 && text[0] == '<',
        (XmpEncoding::Utf8, false) => {
            &&& !(text.len() > 0 && text[0] == '\u{feff}')
            &&& !opens_with4(text, '\0', '\0', '\0', '<')
            &&& !opens_with4(text, '<', '\0', '\0', '\0')
            &&& !opens_with4(text, '\0', '<', '\0', '?')
            &&& !opens_with4(text, '<', '\0', '?', '\0')
        },
    }
}

/// A self-describing packet is read back as it was written: encoding, byte-order mark and text.
/// No other packet is.
pub proof fn law_packet_round_trip(text: Seq<char>, encoding: XmpEncoding, with_bom: bool)
    ensures
        self_describing(text, encoding, with_bom) <==> decoded_packet(
            encoded_packet(text, encoding, with_bom),
        ) == Ok::<(XmpEncoding, bool, Seq<char>), ErrorView>((encoding, with_bom, text)),
{
    let b = encoded_packet(text, encoding, with_bom);
    lemma_detected(text, encoding, with_bom);
    if self_describing(text, encoding, with_bom) {
        assert(after_mark(b) =~= encoded_text(encoding, text));
        law_text_survives_its_encoding(encoding, text);
    }
}

/// The leading bytes of a packet show how it was written exactly when it is self-describing.
pub proof fn lemma_detected(text: Seq<char>, encoding: XmpEncoding, with_bom: bool)
    ensures
        self_describing(text, encoding, with_bom) <==> detected(
            encoded_packet(text, encoding, with_bom),
        ) == (encoding, with_bom),
{
    let b = encoded_packet(text, encoding, with_bom);
    let e = encoded_text(encoding, text);
    match encoding {
        XmpEncoding::Utf8 => {
            lemma_utf8_front(text);
            assert(e == encode_utf8(text));
            if !with_bom {
                assert(!begins4(b, 0x00, 0x00, 0xFE, 0xFF));
                assert(!begins2(b, 0xFE, 0xFF) && !begins2(b, 0xFF, 0xFE));
                assert(self_describing(text, encoding, with_bom) <==> detected(b) == (
                    XmpEncoding::Utf8,
                    false,
                ));
            } else {
                assert(b.len() >= 3);
                assert(b[0] == 0xEF && b[1] == 0xBB && b[2] == 0xBF);
                assert(detected(b) == (XmpEncoding::Utf8, true));
                assert(b[0] == 0xEF && b[1] == 0xBB && b[2] == 0xBF);
            }
        },
        XmpEncoding::Utf16Be | XmpEncoding::Utf16Le => {
            let big = encoding == XmpEncoding::Utf16Be;
            lemma_utf16_front(big, text);
            if text.len() > 0 {
                lemma_char_value(text[0]);
            }
            if text.len() > 1 {
                lemma_char_value(text[1]);
            }
            if with_bom {
                assert(b[0] == byte_order_mark(encoding)[0]);
                assert(b[1] == byte_order_mark(encoding)[1]);
                if e.len() >= 2 {
                    assert(b[2] == e[0] && b[3] == e[1]);
                }
            }
            assert(self_describing(text, encoding, with_bom) <==> detected(b) == (encoding, with_bom));
        },
        XmpEncoding::Utf32Be | XmpEncoding::Utf32Le => {
            let big = encoding == XmpEncoding::Utf32Be;
            if text.len() > 0 {
                lemma_char_value(text[0]);
                assert(e.subrange(0, 4) =~= char_bytes32(big, text[0]));
                assert(e[0] == e.subrange(0, 4)[0] && e[1] == e.subrange(0, 4)[1] && e[2]
                    == e.subrange(0, 4)[2] && e[3] == e.subrange(0, 4)[3]);
            }
            if with_bom {
                assert(b[0] == byte_order_mark(encoding)[0]);
                assert(b[1] == byte_order_mark(encoding)[1]);
                assert(b[2] == byte_order_mark(encoding)[2]);
                assert(b[3] == byte_order_mark(encoding)[3]);
            }
            assert(self_describing(text, encoding, with_bom) <==> detected(b) == (encoding, with_bom));
        },
    }
}

/// The bytes of a code unit hold that code unit.
proof fn lemma_unit_bytes(big: bool, unit: u16)
    ensures
        unit_of(big, unit_bytes(big, unit)[0], unit_bytes(big, unit)[1]) == unit,
{
}

/// The leading bytes of UTF-16 text tell its first two characters.
proof fn lemma_utf16_front(big: bool, text: Seq<char>)
    ensures
        ({
            let b = utf16_bytes(big, text);
            &&& text.len() == 0 <==> b.len() == 0
            &&& text.len() > 0 ==> b.len() >= 2 && unit_of(big, b[0], b[1]) == char_units(text[0])[0]
            &&& text.len() > 0 && text[0] == '<' && text.len() == 1 ==> b.len() == 2
            &&& text.len() > 1 && (text[0] as int) < 0x10000 ==> b.len() >= 4 && unit_of(
                big,
                b[2],
                b[3],
            ) == char_units(text[1])[0]
        }),
{
    let b = utf16_bytes(big, text);
    if text.len() > 0 {
        let tail = text.drop_first();
        let first = char_bytes16(big, text[0]);
        lemma_char_value(text[0]);
        assert(b[0] == first[0] && b[1] == first[1]);
        lemma_unit_bytes(big, char_units(text[0])[0]);
        if tail.len() == 0 {
            assert(utf16_bytes(big, tail) =~= Seq::<u8>::empty());
            assert(b =~= first);
        } else {
            lemma_unit_bytes(big, char_units(tail[0])[0]);
            let second = char_bytes16(big, tail[0]);
            lemma_char_value(tail[0]);
            let rest = utf16_bytes(big, tail);
            assert(rest[0] == second[0] && rest[1] == second[1]);
            if (text[0] as int) < 0x10000 {
                assert(b[2] == rest[0] && b[3] == rest[1]);
            }
        }
    }
}

/// The leading bytes of UTF-8 text: never those of a wide byte-order mark, those of its own mark
/// exactly for `U+FEFF`, and the ASCII bytes that the detection looks for exactly for the
/// characters that they stand for.
proof fn lemma_utf8_front(text: Seq<char>)
    ensures
        ({
            let b = encode_utf8(text);
            &&& forall|i: int| 0 <= i < b.len() ==> #[trigger] b[i] < 0xF8
            &&& (begins2(b, 0xEF, 0xBB) && b.len() >= 3 && b[2] == 0xBF) <==> (text.len() > 0
                && text[0] == '\u{feff}')
            &&& begins4(b, 0x00, 0x00, 0x00, 0x3C) <==> opens_with4(text, '\0', '\0', '\0', '<')
            &&& begins4(b, 0x3C, 0x00, 0x00, 0x00) <==> opens_with4(text, '<', '\0', '\0', '\0')
            &&& begins4(b, 0x00, 0x3C, 0x00, 0x3F) <==> opens_with4(text, '\0', '<', '\0', '?')
            &&& begins4(b, 0x3C, 0x00, 0x3F, 0x00) <==> opens_with4(text, '<', '\0', '?', '\0')
        }),
{
    lemma_utf8_bytes_bound(text);
    lemma_ascii_front(text, 4);
    let b = encode_utf8(text);
    assert(ascii_bytes_to(b, 4) <==> ascii_chars_to(text, 4));
    if ascii_chars_to(text, 4) {
        assert forall|i: int| 0 <= i < 4 implies b[i] == text[i] as u8 by {
            assert(ascii_chars_to(text, i + 1));
        }
        lemma_char_value(text[0]);
        lemma_char_value(text[1]);
        lemma_char_value(text[2]);
        lemma_char_value(text[3]);
    }
    if text.len() > 0 {
        lemma_mark_scalar(text);
    }
}

/// No byte of UTF-8 text exceeds `0xF7`.
proof fn lemma_utf8_bytes_bound(text: Seq<char>)
    ensures
        forall|i: int| 0 <= i < encode_utf8(text).len() ==> #[trigger] encode_utf8(text)[i] < 0xF8,
    decreases text.len(),
{
    if text.len() > 0 {
        let tail = text.drop_first();
        lemma_utf8_bytes_bound(tail);
        let scalar = text[0] as u32;
        let first = encode_scalar(scalar);
        lemma_char_value(text[0]);
        assert forall|i: int| 0 <= i < first.len() implies first[i] < 0xF8 by {
            lemma_scalar_bytes(scalar);
        }
        let b = encode_utf8(text);
        assert(b =~= first + encode_utf8(tail));
    }
}

proof fn lemma_scalar_bytes(scalar: u32)
    requires
        is_scalar(scalar),
    ensures
        forall|i: int| 0 <= i < encode_scalar(scalar).len() ==> encode_scalar(scalar)[i] < 0xF8,
        scalar >= 0x80 ==> encode_scalar(scalar)[0] >= 0x80,
        scalar < 0x80 ==> encode_scalar(scalar) == seq![scalar as u8],
        encode_scalar(scalar).len() >= 1,
{
    assert(scalar < 0x80 ==> ((scalar & 0x7F) as u8) == scalar as u8) by (bit_vector);
    assert((0xc0u8 | (((scalar >> 6) & 0x1F) as u8)) < 0xF8 && (0xc0u8 | (((scalar >> 6)
        & 0x1F) as u8)) >= 0x80) by (bit_vector);
    assert((0xe0u8 | (((scalar >> 12) & 0x0F) as u8)) < 0xF8 && (0xe0u8 | (((scalar >> 12)
        & 0x0F) as u8)) >= 0x80) by (bit_vector);
    assert((0xf0u8 | (((scalar >> 18) & 0x07) as u8)) < 0xF8 && (0xf0u8 | (((scalar >> 18)
        & 0x07) as u8)) >= 0x80) by (bit_vector);
    assert((0x80u8 | ((scalar & 0x3F) as u8)) < 0xF8) by (bit_vector);
    assert((0x80u8 | (((scalar >> 6) & 0x3F) as u8)) < 0xF8) by (bit_vector);
    assert((0x80u8 | (((scalar >> 12) & 0x3F) as u8)) < 0xF8) by (bit_vector);
}

/// Up to the first `n` positions, ASCII bytes of UTF-8 text and its ASCII characters agree.
proof fn lemma_ascii_front(text: Seq<char>, n: nat)
    ensures
        forall|k: int|
            0 <= k <= n ==> (#[trigger] ascii_bytes_to(encode_utf8(text), k) <==> ascii_chars_to(
                text,
                k,
            )),
        forall|k: int|
            0 <= k < n && ascii_chars_to(text, k + 1) ==> #[trigger] encode_utf8(text)[k]
                == text[k] as u8,
    decreases n,
{
    let b = encode_utf8(text);
    if n > 0 && text.len() > 0 {
        let tail = text.drop_first();
        let rest = encode_utf8(tail);
        let scalar = text[0] as u32;
        let first = encode_scalar(scalar);
        lemma_char_value(text[0]);
        lemma_scalar_bytes(scalar);
        lemma_ascii_front(tail, (n - 1) as nat);
        assert(b =~= first + rest);
        assert(b[0] == first[0]);
        assert forall|k: int| 0 <= k <= n implies (#[trigger] ascii_bytes_to(b, k)
            <==> ascii_chars_to(text, k)) by {
            if k > 0 {
                if scalar < 0x80 {
                    assert(ascii_bytes_to(rest, k - 1) <==> ascii_chars_to(tail, k - 1));
                    assert(first.len() == 1);
                    if ascii_bytes_to(b, k) {
                        assert forall|i: int| 0 <= i < k - 1 implies rest[i] < 0x80 by {
                            assert(b[i + 1] == rest[i]);
                        }
                        assert(ascii_chars_to(tail, k - 1));
                        assert forall|i: int| 0 <= i < k implies (text[i] as int) < 0x80 by {
                            if i > 0 {
                                assert(text[i] == tail[i - 1]);
                                assert((tail[i - 1] as int) < 0x80);
                            }
                        }
                    }
                    if ascii_chars_to(text, k) {
                        assert forall|i: int| 0 <= i < k - 1 implies (tail[i] as int) < 0x80 by {
                            assert(text[i + 1] == tail[i]);
                        }
                        assert(ascii_bytes_to(rest, k - 1));
                        assert forall|i: int| 0 <= i < k implies b[i] < 0x80 by {
                            if i > 0 {
                                assert(b[i] == rest[i - 1]);
                            }
                        }
                    }
                } else {
                    assert(b[0] >= 0x80);
                    assert((text[0] as int) >= 0x80);
                }
            }
        }
        assert forall|k: int| 0 <= k < n && ascii_chars_to(text, k + 1) implies #[trigger] b[k]
            == text[k] as u8 by {
            assert((text[0] as int) < 0x80);
            if k > 0 {
                assert forall|i: int| 0 <= i < k implies (tail[i] as int) < 0x80 by {
                    assert(text[i + 1] == tail[i]);
                }
                assert(ascii_chars_to(tail, k));
                assert(ascii_bytes_to(rest, k));
                assert(rest[k - 1] == tail[k - 1] as u8);
                assert(b[k] == rest[k - 1]);
            }
        }
    }
}

spec fn ascii_bytes_to(b: Seq<u8>, k: int) -> bool {
    k <= b.len() && forall|i: int| 0 <= i < k ==> b[i] < 0x80
}

spec fn ascii_chars_to(text: Seq<char>, k: int) -> bool {
    k <= text.len() && forall|i: int| 0 <= i < k ==> (text[i] as int) < 0x80
}

/// The UTF-8 byte-order mark stands for `U+FEFF` and for nothing else.
pub proof fn lemma_mark_scalar(text: Seq<char>)
    requires
        text.len() > 0,
    ensures
        ({
            let b = encode_utf8(text);
            &&& (begins2(b, 0xEF, 0xBB) && b.len() >= 3 && b[2] == 0xBF) <==> text[0] == '\u{feff}'
            &&& text[0] == '\u{feff}' ==> b == seq![0xEFu8, 0xBB, 0xBF] + encode_utf8(
                text.drop_first(),
            )
        }),
{
    let b = encode_utf8(text);
    let scalar = text[0] as u32;
    let first = encode_scalar(scalar);
    lemma_char_value(text[0]);
    assert(b =~= first + encode_utf8(text.drop_first()));
    encode_utf8_first_scalar(text);
    if text[0] == '\u{feff}' {
        assert(scalar == 0xFEFF);
        assert((0xe0u8 | (((0xFEFFu32 >> 12) & 0x0F) as u8)) == 0xEF) by (bit_vector);
        assert((0x80u8 | (((0xFEFFu32 >> 6) & 0x3F) as u8)) == 0xBB) by (bit_vector);
        assert((0x80u8 | ((0xFEFFu32 & 0x3F) as u8)) == 0xBF) by (bit_vector);
        assert(b[0] == first[0] && b[1] == first[1] && b[2] == first[2]);
        assert(first =~= seq![0xEFu8, 0xBB, 0xBF]);
    }
    if begins2(b, 0xEF, 0xBB) && b.len() >= 3 && b[2] == 0xBF {
        assert((((0xEFu8 & 0x0F) as u32) << 12) | (((0xBBu8 & 0x3F) as u32) << 6) | ((0xBFu8
            & 0x3F) as u32) == 0xFEFF) by (bit_vector);
        assert(decode_first_scalar(b) == 0xFEFF);
        assert(text[0] == '\u{feff}');
    }
}

/// Two bytes come back from the code unit that they hold.
proof fn lemma_unit_back(big: bool, first: u8, second: u8)
    ensures
        unit_bytes(big, unit_of(big, first, second)) == seq![first, second],
{
    assert(unit_bytes(big, unit_of(big, first, second)) =~= seq![first, second]);
}

/// A code unit outside a pair comes back from its character.
proof fn lemma_single_back(unit: u16)
    requires
        !is_high_surrogate(unit),
        !is_low_surrogate(unit),
    ensures
        char_units(unit as char) == seq![unit],
{
    assert((unit as char) as int == unit);
    assert(char_units(unit as char) =~= seq![unit]);
}

/// A surrogate pair comes back from its character.
proof fn lemma_pair_back(high: u16, low: u16)
    requires
        is_high_surrogate(high),
        is_low_surrogate(low),
    ensures
        char_units(pair_scalar(high, low) as char) == seq![high, low],
{
    let scalar = pair_scalar(high, low);
    assert(0x10000 <= scalar < 0x110000);
    assert((scalar as char) as int == scalar);
    assert((scalar - 0x10000) / 0x400 == high - 0xD800);
    assert((scalar - 0x10000) % 0x400 == low - 0xDC00);
    assert(char_units(scalar as char) =~= seq![high, low]);
}

/// The bytes of UTF-16 text come back when the text is encoded again.
proof fn lemma_utf16_bytes_back(big: bool, b: Seq<u8>)
    requires
        decoded16(big, b) is Ok,
    ensures
        utf16_bytes(big, decoded16(big, b)->Ok_0) == b,
    decreases b.len(),
{
    let units = units_of(big, b);
    let text = decoded16(big, b)->Ok_0;
    if b.len() == 0 {
        assert(utf16_bytes(big, text) =~= b);
    } else {
        assert(units.len() == b.len() / 2);
        assert(units[0] == unit_of(big, b[0], b[1]));
        if !is_high_surrogate(units[0]) && !is_low_surrogate(units[0]) {
            let rest = b.skip(2);
            assert(units.skip(1) =~= units_of(big, rest)) by {
                assert forall|k: int| 0 <= k < rest.len() / 2 implies units.skip(1)[k] == units_of(
                    big,
                    rest,
                )[k] by {
                    assert(rest[2 * k] == b[2 * (k + 1)]);
                    assert(rest[2 * k + 1] == b[2 * (k + 1) + 1]);
                }
            }
            lemma_utf16_bytes_back(big, rest);
            lemma_single_back(units[0]);
            lemma_unit_back(big, b[0], b[1]);
            assert(text.drop_first() =~= utf16_text(units.skip(1))->Some_0);
            assert(char_bytes16(big, text[0]) =~= b.take(2));
            assert(b.take(2) + rest =~= b);
        } else {
            let rest = b.skip(4);
            assert(units[1] == unit_of(big, b[2], b[3]));
            assert(units.skip(2) =~= units_of(big, rest)) by {
                assert forall|k: int| 0 <= k < rest.len() / 2 implies units.skip(2)[k] == units_of(
                    big,
                    rest,
                )[k] by {
                    assert(rest[2 * k] == b[2 * (k + 2)]);
                    assert(rest[2 * k + 1] == b[2 * (k + 2) + 1]);
                }
            }
            lemma_utf16_bytes_back(big, rest);
            lemma_pair_back(units[0], units[1]);
            lemma_unit_back(big, b[0], b[1]);
            lemma_unit_back(big, b[2], b[3]);
            assert(text.drop_first() =~= utf16_text(units.skip(2))->Some_0);
            assert(char_bytes16(big, text[0]) =~= b.take(4));
            assert(b.take(4) + rest =~= b);
        }
    }
}

/// Four bytes come back from the character that they hold.
proof fn lemma_word_back(big: bool, b0: u8, b1: u8, b2: u8, b3: u8)
    requires
        is_scalar(word_of(big, b0, b1, b2, b3)),
    ensures
        char_bytes32(big, word_of(big, b0, b1, b2, b3) as char) == seq![b0, b1, b2, b3],
{
    let scalar = word_of(big, b0, b1, b2, b3);
    assert((scalar as char) as int == scalar);
    let (a, b, c, d) = if big {
        (b0, b1, b2, b3)
    } else {
        (b3, b2, b1, b0)
    };
    assert(scalar == a * 0x1000000 + b * 0x10000 + c * 0x100 + d);
    assert(scalar / 0x1000000 == a);
    assert(scalar / 0x10000 == a * 0x100 + b);
    assert(scalar / 0x100 == a * 0x10000 + b * 0x100 + c);
    assert(char_bytes32(big, scalar as char) =~= seq![b0, b1, b2, b3]);
}

/// The bytes of UTF-32 text come back when the text is encoded again.
proof fn lemma_utf32_bytes_back(big: bool, b: Seq<u8>)
    requires
        decoded32(big, b) is Ok,
    ensures
        utf32_bytes(big, decoded32(big, b)->Ok_0) == b,
    decreases b.len(),
{
    let text = decoded32(big, b)->Ok_0;
    if b.len() < 4 {
        assert(b.len() == 0);
        assert(utf32_bytes(big, text) =~= b);
    } else {
        let rest = b.skip(4);
        lemma_utf32_bytes_back(big, rest);
        lemma_word_back(big, b[0], b[1], b[2], b[3]);
        assert(text.drop_first() =~= utf32_text(big, rest)->Some_0);
        assert(char_bytes32(big, text[0]) =~= b.take(4));
        assert(b.take(4) + rest =~= b);
    }
}

/// The bytes of a packet come back when its text is encoded again as it was.
pub proof fn law_bytes_survive_decoding(b: Seq<u8>)
    ensures
        decoded_packet(b) matches Ok((encoding, had_bom, text)) ==> encoded_packet(
            text,
            encoding,
            had_bom,
        ) == b,
{
    let (encoding, had_bom) = detected(b);
    let body = after_mark(b);
    if let Ok(text) = decoded_as(encoding, body) {
        match encoding {
            XmpEncoding::Utf8 => {
                decode_utf8_encode_utf8(body);
            },
            XmpEncoding::Utf16Be => {
                lemma_utf16_bytes_back(true, body);
            },
            XmpEncoding::Utf16Le => {
                lemma_utf16_bytes_back(false, body);
            },
            XmpEncoding::Utf32Be => {
                lemma_utf32_bytes_back(true, body);
            },
            XmpEncoding::Utf32Le => {
                lemma_utf32_bytes_back(false, body);
            },
        }
        assert(encoded_packet(text, encoding, had_bom) =~= b);
    }
}

/// The bytes of joined texts are the joined bytes, in every encoding.
pub proof fn lemma_encoded_concat(encoding: XmpEncoding, a: Seq<char>, b: Seq<char>)
    ensures
        encoded_text(encoding, a + b) == encoded_text(encoding, a) + encoded_text(encoding, b),
{
    match encoding {
        XmpEncoding::Utf8 => {
            text::lemma_encode_concat(a, b);
        },
        XmpEncoding::Utf16Be => {
            lemma_utf16_concat(true, a, b);
        },
        XmpEncoding::Utf16Le => {
            lemma_utf16_concat(false, a, b);
        },
        XmpEncoding::Utf32Be => {
            lemma_utf32_concat(true, a, b);
        },
        XmpEncoding::Utf32Le => {
            lemma_utf32_concat(false, a, b);
        },
    }
}

proof fn lemma_utf16_concat(big: bool, a: Seq<char>, b: Seq<char>)
    ensures
        utf16_bytes(big, a + b) == utf16_bytes(big, a) + utf16_bytes(big, b),
    decreases a.len(),
{
    if a.len() == 0 {
        assert(a + b =~= b);
    } else {
        lemma_utf16_concat(big, a.drop_first(), b);
        assert((a + b).drop_first() =~= a.drop_first() + b);
    }
    assert(utf16_bytes(big, a + b) =~= utf16_bytes(big, a) + utf16_bytes(big, b));
}

proof fn lemma_utf32_concat(big: bool, a: Seq<char>, b: Seq<char>)
    ensures
        utf32_bytes(big, a + b) == utf32_bytes(big, a) + utf32_bytes(big, b),
    decreases a.len(),
{
    if a.len() == 0 {
        assert(a + b =~= b);
    } else {
        lemma_utf32_concat(big, a.drop_first(), b);
        assert((a + b).drop_first() =~= a.drop_first() + b);
    }
    assert(utf32_bytes(big, a + b) =~= utf32_bytes(big, a) + utf32_bytes(big, b));
}

/// ASCII texts that differ by case have bytes that differ by case, in every encoding.
pub proof fn lemma_encoded_case(encoding: XmpEncoding, a: Seq<char>, b: Seq<char>)
    requires
        is_ascii_chars(a),
        is_ascii_chars(b),
        a.len() == b.len(),
        forall|i: int| 0 <= i < b.len() ==> text::lower_char(#[trigger] b[i]) == text::lower_char(
            a[i],
        ),
    ensures
        text::equal_ignoring_case(encoded_text(encoding, a), encoded_text(encoding, b)),
{
    is_ascii_chars_nat_bound(a);
    is_ascii_chars_nat_bound(b);
    match encoding {
        XmpEncoding::Utf8 => {
            text::lemma_ascii_bytes(a);
            text::lemma_ascii_bytes(b);
            assert forall|i: int| 0 <= i < b.len() implies text::lower_byte(encode_utf8(a)[i])
                == text::lower_byte(encode_utf8(b)[i]) by {
                assert((a.index(i) as nat) < 128 && (b.index(i) as nat) < 128);
                assert(text::lower_char(b[i]) == text::lower_char(a[i]));
            }
        },
        XmpEncoding::Utf16Be => {
            lemma_wide_case(true, a, b);
        },
        XmpEncoding::Utf16Le => {
            lemma_wide_case(false, a, b);
        },
        XmpEncoding::Utf32Be => {
            lemma_wide_case(true, a, b);
        },
        XmpEncoding::Utf32Le => {
            lemma_wide_case(false, a, b);
        },
    }
}

proof fn lemma_wide_case(big: bool, a: Seq<char>, b: Seq<char>)
    requires
        a.len() == b.len(),
        forall|i: int| 0 <= i < a.len() ==> (#[trigger] a[i] as nat) < 128,
        forall|i: int| 0 <= i < b.len() ==> (#[trigger] b[i] as nat) < 128,
        forall|i: int| 0 <= i < b.len() ==> text::lower_char(#[trigger] b[i]) == text::lower_char(
            a[i],
        ),
    ensures
        text::equal_ignoring_case(utf16_bytes(big, a), utf16_bytes(big, b)),
        text::equal_ignoring_case(utf32_bytes(big, a), utf32_bytes(big, b)),
    decreases a.len(),
{
    if a.len() > 0 {
        let x = a.drop_first();
        let y = b.drop_first();
        assert forall|i: int| 0 <= i < y.len() implies text::lower_char(#[trigger] y[i])
            == text::lower_char(x[i]) by {
            assert(b[i + 1] == y[i]);
        }
        lemma_wide_case(big, x, y);
        assert(text::lower_char(b[0]) == text::lower_char(a[0]));
        assert((a[0] as nat) < 128 && (b[0] as nat) < 128);
        assert(text::equal_ignoring_case(char_bytes16(big, a[0]), char_bytes16(big, b[0])));
        assert(text::equal_ignoring_case(char_bytes32(big, a[0]), char_bytes32(big, b[0])));
        lemma_case_concat(
            char_bytes16(big, a[0]),
            char_bytes16(big, b[0]),
            utf16_bytes(big, x),
            utf16_bytes(big, y),
        );
        lemma_case_concat(
            char_bytes32(big, a[0]),
            char_bytes32(big, b[0]),
            utf32_bytes(big, x),
            utf32_bytes(big, y),
        );
    }
}

proof fn lemma_case_concat(a: Seq<u8>, b: Seq<u8>, c: Seq<u8>, d: Seq<u8>)
    requires
        text::equal_ignoring_case(a, b),
        text::equal_ignoring_case(c, d),
    ensures
        text::equal_ignoring_case(a + c, b + d),
{
    assert forall|i: int| 0 <= i < (a + c).len() implies text::lower_byte((a + c)[i])
        == text::lower_byte((b + d)[i]) by {
        if i < a.len() {
            assert((a + c)[i] == a[i] && (b + d)[i] == b[i]);
        } else {
            assert((a + c)[i] == c[i - a.len()] && (b + d)[i] == d[i - a.len()]);
        }
    }
}

/// A text takes whole code units.
pub proof fn lemma_unit_lengths(encoding: XmpEncoding, text: Seq<char>)
    ensures
        encoding is Utf16Be || encoding is Utf16Le ==> encoded_text(encoding, text).len() % 2 == 0,
        encoding is Utf32Be || encoding is Utf32Le ==> encoded_text(encoding, text).len() % 4 == 0,
        byte_order_mark(XmpEncoding::Utf16Be).len() == 2,
        byte_order_mark(XmpEncoding::Utf16Le).len() == 2,
        byte_order_mark(XmpEncoding::Utf32Be).len() == 4,
        byte_order_mark(XmpEncoding::Utf32Le).len() == 4,
    decreases text.len(),
{
    if text.len() > 0 {
        lemma_unit_lengths(encoding, text.drop_first());
    }
}

} // verus!
