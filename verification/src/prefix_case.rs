//! Detection and repair of a case-only spelling error on the prefix of the `rdf:RDF` root.

use vstd::prelude::*;
use vstd::slice::*;
use vstd::string::*;
use vstd::utf8::*;

use crate::encoding;
use crate::encoding::{decode_packet, XmpEncoding};
use crate::error;
use crate::error::{ErrorView, XmpError};
use crate::namespace::RDF_NAMESPACE;
use crate::packet;
use crate::packet::{find_attribute, XmpPacket};
use crate::repair;
use crate::repair::{closes_itself, element_balance};
use crate::resplicing;
use crate::text;
use crate::text::{
    append_all, append_range, has_at, same_bytes, same_ignoring_case, scan_to, slice_text, ByteClass,
};

verus! {

/// Whether the tag whose name ends at index `end` declares the lower-case RDF binding: whether an
/// attribute `xmlns:rdf` with that namespace stands between its name and the next `>`.
pub open spec fn binds_rdf(b: Seq<u8>, end: int) -> bool {
    let close = text::scan(b, end, ByteClass::Exactly(0x3E));
    end < close && packet::holds_attribute(
        b.subrange(end + 1, close),
        0,
        encode_utf8("xmlns:rdf"@),
        encode_utf8(RDF_NAMESPACE@),
    )
}

/// Whether three bytes spell `rdf` in another case.
pub open spec fn is_wrong_case(prefix: Seq<u8>) -> bool {
    let rdf = encode_utf8("rdf"@);
    text::equal_ignoring_case(prefix, rdf) && prefix != rdf
}

/// What stands after a `<` in XML text.
pub enum TagStart {
    /// A tag that is not an `RDF` root, or no start tag at all; the search goes on at the index.
    Other(int),
    /// A start tag with the local name `RDF`: where its prefix ends and where its name ends.
    Root(int, int),
}

/// What stands in `b` after the `<` before index `open`.
pub open spec fn tag_start(b: Seq<u8>, open: int) -> TagStart {
    let end = text::scan(b, open, ByteClass::QualifiedNameEnd);
    let name = b.subrange(open, end);
    let colon = text::scan(name, 0, ByteClass::Exactly(0x3A));
    let next = if end > open {
        end
    } else {
        open + 1
    };
    if open < b.len() && (b[open] == 0x3F || b[open] == 0x21 || b[open] == 0x2F) {
        TagStart::Other(open + 1)
    } else if colon < name.len() && name.subrange(colon + 1, name.len() as int) == encode_utf8(
        "RDF"@,
    ) {
        TagStart::Root(open + colon, end)
    } else {
        TagStart::Other(next)
    }
}

/// Where the name begins in the tag that closes an element with the given name, where `depth`
/// elements with that name are open at `cursor`. Tags are told apart as [`repair::balance_from`]
/// tells them.
pub open spec fn closing_from(b: Seq<u8>, name: Seq<u8>, cursor: int, depth: int) -> Option<int>
    decreases b.len() - cursor,
{
    let open = text::scan(b, cursor, ByteClass::Exactly(0x3C));
    if cursor < 0 || cursor >= b.len() || open >= b.len() {
        None
    } else {
        proof {
            repair::lemma_tag_bounds(b, cursor, name.len());
        }
        let start = repair::name_start(b, open);
        let end = start + name.len();
        let tag_end = text::scan(b, end, ByteClass::Exactly(0x3E));
        if !text::occurs_at(b, name, start) || end >= b.len() || !text::in_class(
            ByteClass::TagNameEnd,
            b[end],
        ) {
            closing_from(b, name, start, depth)
        } else if tag_end >= b.len() {
            None
        } else if !repair::is_close(b, open) {
            closing_from(
                b,
                name,
                tag_end + 1,
                if repair::self_closing(b, tag_end) {
                    depth
                } else {
                    depth + 1
                },
            )
        } else if depth == 1 {
            Some(start)
        } else {
            closing_from(b, name, tag_end + 1, depth - 1)
        }
    }
}

/// Where the wrong-case prefix of the first `RDF` start tag at or after `cursor` stands, in that
/// tag and in the tag that closes it. There is one only where the tags with that name balance in
/// the whole text and the opening tag declares the lower-case binding.
pub open spec fn misspelt_from(b: Seq<u8>, cursor: int) -> Option<(int, int)>
    decreases b.len() + 1 - cursor,
{
    let bracket = text::scan(b, cursor, ByteClass::Exactly(0x3C));
    if cursor < 0 || cursor + 5 >= b.len() || bracket >= b.len() {
        None
    } else {
        proof {
            lemma_tag_start(b, cursor);
        }
        match tag_start(b, bracket + 1) {
            TagStart::Other(next) => misspelt_from(b, next),
            TagStart::Root(colon, end) => misspelt_root(b, bracket + 1, colon, end),
        }
    }
}

/// Where the wrong-case prefix stands in the start tag whose name begins at `open`, and in the tag
/// that closes it.
pub open spec fn misspelt_root(b: Seq<u8>, open: int, colon: int, end: int) -> Option<(int, int)> {
    let name = b.subrange(open, end);
    let tag_end = text::scan(b, end, ByteClass::Exactly(0x3E));
    if is_wrong_case(b.subrange(open, colon)) && tag_end < b.len() && !repair::self_closing(
        b,
        tag_end,
    ) && binds_rdf(b, end) && repair::balance_from(b, name, 0) == 0 {
        match closing_from(b, name, tag_end + 1, 1) {
            Some(close) => Some((open, close)),
            None => None,
        }
    } else {
        None
    }
}

/// The wrong-case spelling of the root prefix in packet bytes; `None` for bytes that cannot be
/// decoded.
pub open spec fn prefix_mismatch(bytes: Seq<u8>) -> Option<Seq<char>> {
    match encoding::decoded_packet(bytes) {
        Ok((_, _, decoded)) => match misspelt_from(encode_utf8(decoded), 0) {
            Some((open, _)) => Some(decode_utf8(encode_utf8(decoded).subrange(open, open + 3))),
            None => None,
        },
        Err(_) => None,
    }
}

/// The search for a root moves on.
pub proof fn lemma_tag_start(b: Seq<u8>, cursor: int)
    requires
        0 <= cursor <= b.len(),
        text::scan(b, cursor, ByteClass::Exactly(0x3C)) < b.len(),
    ensures
        ({
            let open = text::scan(b, cursor, ByteClass::Exactly(0x3C)) + 1;
            &&& cursor < open <= b.len()
            &&& b[open - 1] == 0x3C
            &&& match tag_start(b, open) {
                TagStart::Other(next) => cursor < next <= b.len() + 1,
                TagStart::Root(colon, end) => open <= colon < end <= b.len() && b[colon] == 0x3A,
            }
        }),
{
    text::lemma_scan(b, cursor, ByteClass::Exactly(0x3C));
    let open = text::scan(b, cursor, ByteClass::Exactly(0x3C)) + 1;
    text::lemma_scan(b, open, ByteClass::QualifiedNameEnd);
    let end = text::scan(b, open, ByteClass::QualifiedNameEnd);
    let name = b.subrange(open, end);
    text::lemma_scan(name, 0, ByteClass::Exactly(0x3A));
}

/// What [`read_tag_start`] found.
enum FoundTag {
    Other,
    Root { colon: usize, end: usize },
}

/// The literals that are compared with are ASCII and not empty.
proof fn lemma_lengths()
    ensures
        encode_utf8("RDF"@).len() == 3,
        encode_utf8("rdf"@).len() == 3,
        encode_utf8("rdf"@) == seq![0x72u8, 0x64, 0x66],
        encode_utf8(":RDF"@) == seq![0x3Au8, 0x52, 0x44, 0x46],
        encode_utf8("RDF"@) == seq![0x52u8, 0x44, 0x46],
{
    reveal_strlit("RDF");
    reveal_strlit("rdf");
    reveal_strlit(":RDF");
    text::lemma_ascii_bytes(":RDF"@);
    assert(encode_utf8(":RDF"@) =~= seq![0x3Au8, 0x52, 0x44, 0x46]);
    text::lemma_ascii_bytes("RDF"@);
    text::lemma_ascii_bytes("rdf"@);
    assert(encode_utf8("rdf"@) =~= seq![0x72u8, 0x64, 0x66]);
    assert(encode_utf8("RDF"@) =~= seq![0x52u8, 0x44, 0x46]);
}

/// What stands after the `<` before index `open`: whether it is a root, and where the search goes
/// on if it is not.
fn read_tag_start(b: &[u8], open: usize) -> (r: (FoundTag, Option<usize>))
    requires
        0 < open <= b@.len(),
    ensures
        match r.0 {
            FoundTag::Root { colon, end } => tag_start(b@, open as int) == TagStart::Root(
                colon as int,
                end as int,
            ) && open <= colon < end <= b@.len(),
            FoundTag::Other => match r.1 {
                Some(next) => tag_start(b@, open as int) == TagStart::Other(next as int) && next
                    <= b@.len(),
                None => tag_start(b@, open as int) == TagStart::Other(b@.len() as int + 1),
            },
        },
{
    let length: usize = b.len();
    if open < length && (b[open] == 0x3F || b[open] == 0x21 || b[open] == 0x2F) {
        return (FoundTag::Other, Some(open + 1));
    }
    let end: usize = scan_to(b, open, ByteClass::QualifiedNameEnd);
    let name = slice_subrange(b, open, end);
    let colon: usize = scan_to(name, 0, ByteClass::Exactly(0x3A));
    if colon < name.len() {
        let local = slice_subrange(name, colon + 1, name.len());
        if same_bytes(local, "RDF".as_bytes()) {
            return (FoundTag::Root { colon: open + colon, end }, None);
        }
    }
    if end > open {
        (FoundTag::Other, Some(end))
    } else if open < length {
        (FoundTag::Other, Some(open + 1))
    } else {
        (FoundTag::Other, None)
    }
}

/// Whether three bytes spell `rdf` in another case.
fn has_wrong_case(prefix: &[u8]) -> (r: bool)
    ensures
        r == is_wrong_case(prefix@),
{
    let rdf = "rdf".as_bytes();
    same_ignoring_case(prefix, rdf) && !same_bytes(prefix, rdf)
}

/// Whether the tag whose name ends at index `end` declares the lower-case RDF binding.
fn declares_rdf(b: &[u8], end: usize) -> (r: bool)
    requires
        end <= b@.len(),
    ensures
        r == binds_rdf(b@, end as int),
{
    let close: usize = scan_to(b, end, ByteClass::Exactly(0x3E));
    end < close && find_attribute(
        slice_subrange(b, end + 1, close),
        0,
        "xmlns:rdf".as_bytes(),
        RDF_NAMESPACE.as_bytes(),
    )
}

/// Where the name begins in the tag that closes the element that is open at `from`. See
/// [`closing_from`].
fn find_closing(b: &[u8], name: &[u8], from: usize) -> (r: Option<usize>)
    requires
        from <= b@.len(),
    ensures
        match r {
            Some(start) => closing_from(b@, name@, from as int, 1) == Some(start as int),
            None => closing_from(b@, name@, from as int, 1) is None,
        },
{
    let length: usize = b.len();
    let mut cursor: usize = from;
    let mut depth: i128 = 1;
    while cursor < length
        invariant
            length == b@.len(),
            cursor <= length,
            1 <= depth <= cursor + 1,
            closing_from(b@, name@, from as int, 1) == closing_from(
                b@,
                name@,
                cursor as int,
                depth as int,
            ),
        decreases length - cursor,
    {
        let open: usize = scan_to(b, cursor, ByteClass::Exactly(0x3C));
        if open >= length {
            return None;
        }
        proof {
            repair::lemma_tag_bounds(b@, cursor as int, name@.len());
        }
        let is_close = length - open > 1 && b[open + 1] == 0x2F;
        let start: usize = if is_close {
            open + 2
        } else {
            open + 1
        };
        if !has_at(b, name, start) || length - start <= name.len() {
            cursor = start;
            continue;
        }
        let end: usize = start + name.len();
        if scan_to(b, end, ByteClass::TagNameEnd) != end {
            cursor = start;
            continue;
        }
        let tag_end: usize = scan_to(b, end, ByteClass::Exactly(0x3E));
        if tag_end >= length {
            return None;
        }
        if is_close {
            if depth == 1 {
                return Some(start);
            }
            depth = depth - 1;
        } else if !closes_itself(b, tag_end) {
            depth = depth + 1;
        }
        cursor = tag_end + 1;
    }
    None
}

/// A prefix that differs from `rdf` only by case consists of three ASCII letters.
proof fn lemma_wrong_case(prefix: Seq<u8>)
    requires
        is_wrong_case(prefix),
        valid_utf8(prefix),
    ensures
        is_ascii_chars(decode_utf8(prefix)),
        decode_utf8(prefix).len() == 3,
        encode_utf8(decode_utf8(prefix)) == prefix,
        is_misspelling(decode_utf8(prefix)),
{
    lemma_lengths();
    let rdf = encode_utf8("rdf"@);
    assert(text::lower_byte(prefix[0]) == rdf[0]);
    assert(text::lower_byte(prefix[1]) == rdf[1]);
    assert(text::lower_byte(prefix[2]) == rdf[2]);
    let chars = Seq::new(3, |i: int| prefix[i] as char);
    assert(is_ascii_chars(chars));
    text::lemma_ascii_bytes(chars);
    assert(encode_utf8(chars) =~= prefix);
    text::lemma_text_bytes(chars);
    reveal_strlit("rdf");
    assert(text::lower_text(chars) =~= "rdf"@);
}

/// Where the wrong-case prefix of the root stands in UTF-8 text. See [`misspelt_from`].
fn find_misspelt(source: &[u8]) -> (r: Option<(usize, usize)>)
    ensures
        match r {
            Some((open, close)) => misspelt_from(source@, 0) == Some((open as int, close as int)),
            None => misspelt_from(source@, 0) is None,
        },
{
    let ghost b = source@;
    let length: usize = source.len();
    let mut cursor: usize = 0;
    loop
        invariant
            source@ == b,
            length == b.len(),
            cursor <= length,
            misspelt_from(b, 0) == misspelt_from(b, cursor as int),
        decreases length - cursor,
    {
        if length - cursor <= 5 {
            return None;
        }
        let bracket: usize = scan_to(source, cursor, ByteClass::Exactly(0x3C));
        if bracket >= length {
            return None;
        }
        let open: usize = bracket + 1;
        proof {
            lemma_tag_start(b, cursor as int);
        }
        match read_tag_start(source, open) {
            (FoundTag::Other, Some(next)) => {
                cursor = next;
            },
            (FoundTag::Other, None) => {
                assert(misspelt_from(b, length + 1) is None);
                return None;
            },
            (FoundTag::Root { colon, end }, _) => {
                if !has_wrong_case(slice_subrange(source, open, colon)) {
                    return None;
                }
                let tag_end: usize = scan_to(source, end, ByteClass::Exactly(0x3E));
                if tag_end >= length || closes_itself(source, tag_end) || !declares_rdf(
                    source,
                    end,
                ) {
                    return None;
                }
                let name = slice_subrange(source, open, end);
                if element_balance(source, name) != 0 {
                    return None;
                }
                return match find_closing(source, name, tag_end + 1) {
                    Some(close) => Some((open, close)),
                    None => None,
                };
            },
        }
    }
}

/// Where the name of a closing tag is found, the name stands.
proof fn lemma_closing(b: Seq<u8>, name: Seq<u8>, cursor: int, depth: int)
    requires
        0 <= cursor <= b.len(),
    ensures
        closing_from(b, name, cursor, depth) matches Some(start) ==> {
            &&& cursor + 2 <= start
            &&& start + name.len() < b.len()
            &&& text::occurs_at(b, name, start)
            &&& b[start - 1] == 0x2F
            &&& b[start - 2] == 0x3C
        },
    decreases b.len() - cursor,
{
    let open = text::scan(b, cursor, ByteClass::Exactly(0x3C));
    if cursor < b.len() && open < b.len() {
        text::lemma_scan(b, cursor, ByteClass::Exactly(0x3C));
        repair::lemma_tag_bounds(b, cursor, name.len());
        let start = repair::name_start(b, open);
        let end = start + name.len();
        let tag_end = text::scan(b, end, ByteClass::Exactly(0x3E));
        if !text::occurs_at(b, name, start) || end >= b.len() || !text::in_class(
            ByteClass::TagNameEnd,
            b[end],
        ) {
            lemma_closing(b, name, start, depth);
        } else if tag_end < b.len() {
            if !repair::is_close(b, open) {
                lemma_closing(
                    b,
                    name,
                    tag_end + 1,
                    if repair::self_closing(b, tag_end) {
                        depth
                    } else {
                        depth + 1
                    },
                );
            } else if depth != 1 {
                lemma_closing(b, name, tag_end + 1, depth - 1);
            }
        }
    }
}

/// Where a misspelt root is found: its prefix stands in both of its tags, before `:RDF`.
proof fn lemma_misspelt(b: Seq<u8>, cursor: int)
    requires
        0 <= cursor,
    ensures
        misspelt_from(b, cursor) matches Some((open, close)) ==> {
            let name = b.subrange(open, open + 7);
            &&& 0 < open
            &&& open + 9 <= close
            &&& close + 7 <= b.len()
            &&& b[open - 1] == 0x3C
            &&& b[close - 1] == 0x2F
            &&& b[close - 2] == 0x3C
            &&& is_wrong_case(b.subrange(open, open + 3))
            &&& name.subrange(3, 7) == encode_utf8(":RDF"@)
            &&& b.subrange(close, close + 7) == name
        },
    decreases b.len() + 1 - cursor,
{
    let bracket = text::scan(b, cursor, ByteClass::Exactly(0x3C));
    if cursor + 5 < b.len() && bracket < b.len() {
        lemma_tag_start(b, cursor);
        match tag_start(b, bracket + 1) {
            TagStart::Other(next) => {
                lemma_misspelt(b, next);
            },
            TagStart::Root(colon, end) => {
                let open = bracket + 1;
                let name = b.subrange(open, end);
                lemma_lengths();
                text::lemma_scan(name, 0, ByteClass::Exactly(0x3A));
                text::lemma_scan(b, end, ByteClass::Exactly(0x3E));
                let tag_end = text::scan(b, end, ByteClass::Exactly(0x3E));
                if misspelt_root(b, open, colon, end) is Some {
                    lemma_closing(b, name, tag_end + 1, 1);
                    assert(colon == open + 3);
                    assert(end == open + 7);
                    let rest = name.subrange(4, 7);
                    assert(rest == encode_utf8("RDF"@));
                    assert(name[3] == 0x3A && name[4] == rest[0] && name[5] == rest[1] && name[6]
                        == rest[2]);
                    assert(name.subrange(3, 7) =~= encode_utf8(":RDF"@));
                }
            },
        }
    }
}

/// Detects a recoverable case-only spelling error on the `rdf:RDF` root prefix.
///
/// This operates before namespace resolution because `<RDF:RDF>` with only a lowercase
/// `xmlns:rdf` binding is not namespace-well-formed. A mismatch is reported only when the
/// wrong-case opening and closing names balance and the opening tag declares the canonical
/// lowercase RDF binding.
#[must_use]
pub fn rdf_prefix_case_mismatch(bytes: &[u8]) -> (r: Option<String>)
    ensures
        error::option_view(r) == prefix_mismatch(bytes@),
{
    match decode_packet(bytes) {
        Ok((_, _, decoded)) => {
            let source = decoded.as_str().as_bytes();
            match find_misspelt(source) {
                Some((open, _)) => {
                    proof {
                        lemma_misspelt_places(decoded@);
                    }
                    Some(slice_text(decoded.as_str(), open, open + 3).to_owned())
                },
                None => None,
            }
        },
        Err(_) => None,
    }
}

/// The places of a misspelt prefix are between characters.
proof fn lemma_misspelt_places(decoded: Seq<char>)
    ensures
        misspelt_from(encode_utf8(decoded), 0) matches Some((open, close)) ==> {
            let b = encode_utf8(decoded);
            &&& 0 < open && open + 9 <= close && close + 7 <= b.len()
            &&& is_char_boundary(b, open - 1)
            &&& is_char_boundary(b, open)
            &&& is_char_boundary(b, open + 3)
            &&& is_char_boundary(b, open + 7)
            &&& is_char_boundary(b, close - 2)
            &&& is_char_boundary(b, close)
            &&& is_char_boundary(b, close + 3)
            &&& is_char_boundary(b, close + 7)
        },
{
    let b = encode_utf8(decoded);
    text::lemma_text_bytes(decoded);
    lemma_misspelt(b, 0);
    lemma_lengths();
    if let Some((open, close)) = misspelt_from(b, 0) {
        let name = b.subrange(open, open + 7);
        let again = b.subrange(close, close + 7);
        let tail = name.subrange(3, 7);
        assert(name[3] == tail[0] && name[6] == tail[3]);
        assert(b[open + 3] == name[3] && b[open + 6] == name[6]);
        assert(b[close + 3] == again[3] && b[close + 6] == again[6]);
        text::lemma_ascii_boundaries(b, open - 1);
        text::lemma_ascii_boundaries(b, open + 3);
        text::lemma_ascii_boundaries(b, open + 6);
        text::lemma_ascii_boundaries(b, close - 2);
        text::lemma_ascii_boundaries(b, close - 1);
        text::lemma_ascii_boundaries(b, close + 3);
        text::lemma_ascii_boundaries(b, close + 6);
    }
}

/// The packet with the root prefix in lower case, where it was misspelt.
pub open spec fn prefix_repaired(bytes: Seq<u8>) -> Result<Option<Seq<u8>>, ErrorView> {
    match encoding::decoded_packet(bytes) {
        Err(e) => Err(e),
        Ok((_, _, decoded)) => match misspelt_from(encode_utf8(decoded), 0) {
            None => Ok(None),
            Some((open, close)) => match packet::scanned(bytes) {
                Err(e) => Err(e),
                Ok(d) => Ok(
                    Some(
                        d.respliced(
                            open,
                            close + 3,
                            encode_utf8("rdf"@) + d.bytes().subrange(open + 3, close)
                                + encode_utf8("rdf"@),
                        ),
                    ),
                ),
            },
        },
    }
}

/// Repairs a balanced, case-only spelling error on the `rdf:RDF` root prefix.
///
/// Detection follows [`rdf_prefix_case_mismatch`]. Only the root opening and closing qualified
/// names are changed; the packet envelope, character encoding, padding, and inner RDF spelling
/// remain intact.
///
/// # Errors
///
/// Returns [`XmpError::Encoding`] when the packet cannot be decoded.
pub fn repair_rdf_prefix_case(bytes: &[u8]) -> (r: Result<Option<Vec<u8>>, XmpError>)
    ensures
        match r {
            Ok(repaired) => prefix_repaired(bytes@) == Ok::<Option<Seq<u8>>, ErrorView>(
                error::option_view(repaired),
            ),
            Err(e) => prefix_repaired(bytes@) == Err::<Option<Seq<u8>>, ErrorView>(e@),
        },
{
    let (open, close): (usize, usize) = match decode_packet(bytes) {
        Ok((_, _, decoded)) => match find_misspelt(decoded.as_str().as_bytes()) {
            Some(places) => places,
            None => {
                return Ok(None);
            },
        },
        Err(e) => {
            return Err(e);
        },
    };
    let decoded = match XmpPacket::scan_with_source(bytes) {
        Ok(decoded) => decoded,
        Err(e) => {
            return Err(e);
        },
    };
    let source = decoded.decoded.as_str().as_bytes();
    proof {
        lemma_misspelt_places(decoded.decoded@);
    }
    let mut replacement: Vec<u8> = Vec::new();
    append_all(&mut replacement, "rdf".as_bytes());
    append_range(&mut replacement, source, open + 3, close);
    append_all(&mut replacement, "rdf".as_bytes());
    proof {
        let b = decoded@.bytes();
        let inner = b.subrange(open + 3, close as int);
        text::lemma_text_bytes(decoded.decoded@);
        text::lemma_boundary_within(b, open + 3, open + 3, close as int);
        assert(replacement@ =~= encode_utf8("rdf"@) + inner + encode_utf8("rdf"@));
        lemma_tagged(decoded.encoding, "rdf"@, inner, "rdf"@);
    }
    Ok(Some(decoded.resplice(open, close + 3, replacement.as_slice())))
}

/// What `renamed` is to `bytes` when the prefix of a root is respelt: it is replaced in both tags of
/// the root, and all other bytes stay.
pub open spec fn respells_root(
    encoding: XmpEncoding,
    prefix: Seq<char>,
    bytes: Seq<u8>,
    renamed: Seq<u8>,
    before: Seq<u8>,
    inner: Seq<u8>,
    after: Seq<u8>,
) -> bool {
    &&& bytes == before + (encoding::encoded_text(encoding, "<"@ + prefix + ":RDF"@) + inner
        + encoding::encoded_text(encoding, "</"@ + prefix + ":RDF"@)) + after
    &&& renamed == before + (encoding::encoded_text(encoding, "<rdf:RDF"@) + inner
        + encoding::encoded_text(encoding, "</rdf:RDF"@)) + after
}

/// Whether a prefix is `rdf` in another case.
pub open spec fn is_misspelling(prefix: Seq<char>) -> bool {
    text::lower_text(prefix) == "rdf"@ && prefix != "rdf"@
}

/// A prefix that is reported is `rdf` in another case.
pub proof fn law_reported_prefixes_are_misspellings(bytes: Seq<u8>)
    ensures
        prefix_mismatch(bytes) matches Some(prefix) ==> is_misspelling(prefix),
{
    if let Some(prefix) = prefix_mismatch(bytes) {
        let decoded = encoding::decoded_packet(bytes)->Ok_0.2;
        let b = encode_utf8(decoded);
        let open = misspelt_from(b, 0)->Some_0.0;
        text::lemma_text_bytes(decoded);
        lemma_misspelt(b, 0);
        lemma_misspelt_places(decoded);
        text::lemma_boundary_within(b, open, open, open + 3);
        lemma_wrong_case(b.subrange(open, open + 3));
    }
}

/// A repair follows the detection: nothing is repaired where no misspelt prefix is reported, and
/// where one is only the prefix in the two tags of the root changes. The repaired packet has as many
/// bytes, equals the packet but for the case of letters, and differs from it.
pub proof fn law_repair_changes_only_the_root_names(bytes: Seq<u8>)
    ensures
        encoding::decoded_packet(bytes) is Ok && prefix_mismatch(bytes) is None ==> prefix_repaired(
            bytes,
        ) == Ok::<Option<Seq<u8>>, ErrorView>(None),
        prefix_repaired(bytes) matches Ok(Some(renamed)) ==> (prefix_mismatch(bytes) matches Some(
            prefix,
        ) && packet::scanned(bytes) matches Ok(d) && {
            &&& is_misspelling(prefix)
            &&& renamed.len() == bytes.len()
            &&& text::equal_ignoring_case(renamed, bytes)
            &&& renamed != bytes
            &&& exists|before: Seq<u8>, inner: Seq<u8>, after: Seq<u8>| #[trigger]
                respells_root(d.encoding, prefix, bytes, renamed, before, inner, after)
        }),
{
    if let Ok(Some(renamed)) = prefix_repaired(bytes) {
        let prefix = prefix_mismatch(bytes)->Some_0;
        let d = packet::scanned(bytes)->Ok_0;
        let (before, inner, after) = lemma_respelt(bytes);
        law_reported_prefixes_are_misspellings(bytes);
        lemma_respelling(d.encoding, prefix, bytes, renamed, before, inner, after);
    }
}

/// The parts of a packet around the tags of its root.
proof fn lemma_respelt(bytes: Seq<u8>) -> (parts: (Seq<u8>, Seq<u8>, Seq<u8>))
    requires
        prefix_repaired(bytes) matches Ok(Some(_)),
    ensures
        prefix_mismatch(bytes) is Some,
        packet::scanned(bytes) is Ok,
        respells_root(
            packet::scanned(bytes)->Ok_0.encoding,
            prefix_mismatch(bytes)->Some_0,
            bytes,
            prefix_repaired(bytes)->Ok_0->Some_0,
            parts.0,
            parts.1,
            parts.2,
        ),
{
    let d = packet::scanned(bytes)->Ok_0;
    let b = d.bytes();
    let (open, close) = misspelt_from(b, 0)->Some_0;
    let prefix = prefix_mismatch(bytes)->Some_0;
    let inner = b.subrange(open + 7, close - 2);
    let spelt = b.subrange(open, open + 3);
    lemma_misspelt(b, 0);
    lemma_misspelt_places(d.decoded);
    text::lemma_text_bytes(d.decoded);
    text::lemma_boundary_within(b, open, open, open + 3);
    text::lemma_boundary_within(b, open + 7, open + 7, close - 2);
    lemma_wrong_case(spelt);
    lemma_root_bytes(prefix);
    lemma_root_bytes("rdf"@);
    lemma_tagged(d.encoding, "<rdf:RDF"@, inner, "</rdf:RDF"@);
    lemma_tagged(d.encoding, "<"@ + prefix + ":RDF"@, inner, "</"@ + prefix + ":RDF"@);
    let rdf = encode_utf8("rdf"@);
    let tail = encode_utf8(":RDF"@);
    let new_part = (seq![0x3Cu8] + rdf + tail) + inner + (seq![0x3Cu8, 0x2F] + rdf + tail);
    lemma_lengths();
    lemma_root_part(b, open, close, spelt, rdf, tail);
    resplicing::law_replacing_a_part_keeps_the_other_bytes(bytes, open - 1, close + 7, new_part);
    let (first, last) = resplicing::bytes_around(d, open - 1, close + 7);
    (first, encoding::encoded_text(d.encoding, decode_utf8(inner)), last)
}

/// The part of a text from the opening name of a root to its closing name, as it is and respelt.
proof fn lemma_root_part(
    b: Seq<u8>,
    open: int,
    close: int,
    spelt: Seq<u8>,
    rdf: Seq<u8>,
    tail: Seq<u8>,
)
    requires
        0 < open,
        open + 9 <= close,
        close + 7 <= b.len(),
        b[open - 1] == 0x3C,
        b[close - 1] == 0x2F,
        b[close - 2] == 0x3C,
        spelt == b.subrange(open, open + 3),
        rdf.len() == 3,
        tail.len() == 4,
        b.subrange(open, open + 7).subrange(3, 7) == tail,
        b.subrange(close, close + 7) == b.subrange(open, open + 7),
    ensures
        ({
            let inner = b.subrange(open + 7, close - 2);
            let last = b.subrange(close + 7, b.len() as int);
            &&& b.subrange(open - 1, close + 7) == (seq![0x3Cu8] + spelt + tail) + inner + (
            seq![0x3Cu8, 0x2F] + spelt + tail)
            &&& b.subrange(0, open) + (rdf + b.subrange(open + 3, close) + rdf) + b.subrange(
                close + 3,
                b.len() as int,
            ) == b.subrange(0, open - 1) + ((seq![0x3Cu8] + rdf + tail) + inner + (seq![
                0x3Cu8,
                0x2F,
            ] + rdf + tail)) + last
        }),
{
    let name = b.subrange(open, open + 7);
    let again = b.subrange(close, close + 7);
    let inner = b.subrange(open + 7, close - 2);
    assert forall|i: int| 0 <= i < 7 implies #[trigger] name[i] == b[open + i] && name[i] == b[close
        + i] by {
        assert(again[i] == b[close + i]);
    }
    assert forall|i: int| 0 <= i < 4 implies #[trigger] tail[i] == name[3 + i] by {
        assert(name.subrange(3, 7)[i] == name[3 + i]);
    }
    assert forall|i: int| 0 <= i < 3 implies #[trigger] spelt[i] == name[i] by {}
    assert(name =~= spelt + tail);
    assert(b.subrange(open - 1, open + 7) =~= seq![0x3Cu8] + spelt + tail);
    assert(b.subrange(close - 2, close + 7) =~= seq![0x3Cu8, 0x2F] + again);
    assert(seq![0x3Cu8, 0x2F] + again =~= seq![0x3Cu8, 0x2F] + spelt + tail);
    assert(b.subrange(open - 1, close + 7) =~= b.subrange(open - 1, open + 7) + inner + b.subrange(
        close - 2,
        close + 7,
    ));
    assert(b.subrange(0, open) =~= b.subrange(0, open - 1) + seq![0x3Cu8]);
    assert(b.subrange(open + 3, open + 7) =~= tail);
    assert(b.subrange(open + 3, close) =~= tail + inner + seq![0x3Cu8, 0x2F]);
    assert(b.subrange(close + 3, close + 7) =~= tail);
    assert(b.subrange(close + 3, b.len() as int) =~= tail + b.subrange(
        close + 7,
        b.len() as int,
    ));
    lemma_regroup(
        b.subrange(0, open - 1),
        seq![0x3Cu8],
        rdf,
        tail,
        inner,
        seq![0x3Cu8, 0x2F],
        b.subrange(close + 7, b.len() as int),
    );
}

proof fn lemma_regroup(
    a: Seq<u8>,
    o: Seq<u8>,
    r: Seq<u8>,
    t: Seq<u8>,
    i: Seq<u8>,
    c: Seq<u8>,
    e: Seq<u8>,
)
    ensures
        (a + o) + (r + (t + i + c) + r) + (t + e) == a + ((o + r + t) + i + (c + r + t)) + e,
{
    assert((a + o) + (r + (t + i + c) + r) + (t + e) =~= a + ((o + r + t) + i + (c + r + t)) + e);
}

/// The bytes of the names in the tags of a root with a prefix of ASCII letters.
proof fn lemma_root_bytes(prefix: Seq<char>)
    requires
        is_ascii_chars(prefix),
    ensures
        encode_utf8("<"@ + prefix + ":RDF"@) == seq![0x3Cu8] + encode_utf8(prefix) + encode_utf8(
            ":RDF"@,
        ),
        encode_utf8("</"@ + prefix + ":RDF"@) == seq![0x3Cu8, 0x2F] + encode_utf8(prefix)
            + encode_utf8(":RDF"@),
        "<rdf:RDF"@ == "<"@ + "rdf"@ + ":RDF"@,
        "</rdf:RDF"@ == "</"@ + "rdf"@ + ":RDF"@,
        is_ascii_chars("rdf"@),
{
    reveal_strlit("<");
    reveal_strlit("</");
    reveal_strlit("rdf");
    reveal_strlit(":RDF");
    reveal_strlit("<rdf:RDF");
    reveal_strlit("</rdf:RDF");
    assert("<rdf:RDF"@ =~= "<"@ + "rdf"@ + ":RDF"@);
    assert("</rdf:RDF"@ =~= "</"@ + "rdf"@ + ":RDF"@);
    text::lemma_ascii_bytes("<"@);
    text::lemma_ascii_bytes("</"@);
    assert(encode_utf8("<"@) =~= seq![0x3Cu8]);
    assert(encode_utf8("</"@) =~= seq![0x3Cu8, 0x2F]);
    text::lemma_encode_concat("<"@ + prefix, ":RDF"@);
    text::lemma_encode_concat("<"@, prefix);
    text::lemma_encode_concat("</"@ + prefix, ":RDF"@);
    text::lemma_encode_concat("</"@, prefix);
}

/// Respelling a root changes the case of letters, and changes something.
proof fn lemma_respelling(
    encoding: XmpEncoding,
    prefix: Seq<char>,
    bytes: Seq<u8>,
    renamed: Seq<u8>,
    before: Seq<u8>,
    inner: Seq<u8>,
    after: Seq<u8>,
)
    requires
        is_misspelling(prefix),
        respells_root(encoding, prefix, bytes, renamed, before, inner, after),
    ensures
        text::equal_ignoring_case(renamed, bytes),
        renamed != bytes,
{
    let opening = "<"@ + prefix + ":RDF"@;
    let closing = "</"@ + prefix + ":RDF"@;
    lemma_misspelling_letters(prefix);
    lemma_root_bytes(prefix);
    reveal_strlit("<");
    reveal_strlit("</");
    reveal_strlit(":RDF");
    reveal_strlit("rdf");
    assert(is_ascii_chars(opening));
    assert(is_ascii_chars(closing));
    assert(is_ascii_chars("<rdf:RDF"@)) by {
        reveal_strlit("<rdf:RDF");
    }
    assert(is_ascii_chars("</rdf:RDF"@)) by {
        reveal_strlit("</rdf:RDF");
    }
    assert forall|i: int| 0 <= i < opening.len() implies text::lower_char(#[trigger] opening[i])
        == text::lower_char("<rdf:RDF"@[i]) by {
        if 1 <= i < 4 {
            assert(text::lower_text(prefix)[i - 1] == text::lower_char(prefix[i - 1]));
            assert(opening[i] == prefix[i - 1]);
        }
    }
    assert forall|i: int| 0 <= i < closing.len() implies text::lower_char(#[trigger] closing[i])
        == text::lower_char("</rdf:RDF"@[i]) by {
        if 2 <= i < 5 {
            assert(text::lower_text(prefix)[i - 2] == text::lower_char(prefix[i - 2]));
            assert(closing[i] == prefix[i - 2]);
        }
    }
    encoding::lemma_encoded_case(encoding, "<rdf:RDF"@, opening);
    encoding::lemma_encoded_case(encoding, "</rdf:RDF"@, closing);
    let o = encoding::encoded_text(encoding, opening);
    let c = encoding::encoded_text(encoding, closing);
    let o2 = encoding::encoded_text(encoding, "<rdf:RDF"@);
    let c2 = encoding::encoded_text(encoding, "</rdf:RDF"@);
    lemma_case_joins(before, o2, o, inner, c2, c, after);
    encoding::law_text_survives_its_encoding(encoding, opening);
    encoding::law_text_survives_its_encoding(encoding, "<rdf:RDF"@);
    if renamed == bytes {
        let at = before.len() as int;
        assert(renamed.subrange(at, at + o.len()) =~= o2);
        assert(bytes.subrange(at, at + o.len()) =~= o);
        assert(opening == "<rdf:RDF"@);
        assert(prefix =~= opening.subrange(1, 4));
        assert("rdf"@ =~= ("<"@ + "rdf"@ + ":RDF"@).subrange(1, 4));
    }
}

/// A misspelling consists of three ASCII letters.
proof fn lemma_misspelling_letters(prefix: Seq<char>)
    requires
        is_misspelling(prefix),
    ensures
        prefix.len() == 3,
        is_ascii_chars(prefix),
{
    reveal_strlit("rdf");
    let lower = text::lower_text(prefix);
    assert(lower.len() == prefix.len());
    assert("rdf"@.len() == 3);
    assert forall|i: int| 0 <= i < 3 implies '\0' <= #[trigger] prefix[i] <= '\u{7f}' by {
        assert(lower[i] == text::lower_char(prefix[i]));
        assert(lower[i] == "rdf"@[i]);
    }
}

/// Bytes that differ by case in two parts differ by case as a whole.
proof fn lemma_case_joins(
    a: Seq<u8>,
    b: Seq<u8>,
    b2: Seq<u8>,
    c: Seq<u8>,
    d: Seq<u8>,
    d2: Seq<u8>,
    e: Seq<u8>,
)
    requires
        text::equal_ignoring_case(b, b2),
        text::equal_ignoring_case(d, d2),
    ensures
        text::equal_ignoring_case(a + (b + c + d) + e, a + (b2 + c + d2) + e),
{
    let x = a + (b + c + d) + e;
    let y = a + (b2 + c + d2) + e;
    assert forall|i: int| 0 <= i < x.len() implies text::lower_byte(x[i]) == text::lower_byte(
        y[i],
    ) by {
        let j = i - a.len();
        if 0 <= j < b.len() {
            assert(x[i] == b[j] && y[i] == b2[j]);
        } else if b.len() + c.len() <= j < b.len() + c.len() + d.len() {
            let k = j - b.len() - c.len();
            assert(x[i] == d[k] && y[i] == d2[k]);
        } else {
            assert(x[i] == y[i]);
        }
    }
}

/// The bytes of a text between two tags.
proof fn lemma_tagged(encoding: XmpEncoding, opening: Seq<char>, inner: Seq<u8>, closing: Seq<char>)
    requires
        valid_utf8(inner),
    ensures
        valid_utf8(encode_utf8(opening) + inner + encode_utf8(closing)),
        encoding::encoded_text(
            encoding,
            decode_utf8(encode_utf8(opening) + inner + encode_utf8(closing)),
        ) == encoding::encoded_text(encoding, opening) + encoding::encoded_text(
            encoding,
            decode_utf8(inner),
        ) + encoding::encoded_text(encoding, closing),
{
    text::lemma_text_bytes(opening);
    text::lemma_text_bytes(closing);
    valid_utf8_concat(encode_utf8(opening), inner);
    valid_utf8_concat(encode_utf8(opening) + inner, encode_utf8(closing));
    text::lemma_decode_concat(encode_utf8(opening), inner);
    text::lemma_decode_concat(encode_utf8(opening) + inner, encode_utf8(closing));
    encoding::lemma_encoded_concat(encoding, opening, decode_utf8(inner));
    encoding::lemma_encoded_concat(encoding, opening + decode_utf8(inner), closing);
}

} // verus!
