//! The XMP packet wrapper.
//!
//! An embedded XMP packet is the RDF/XML body bracketed by `<?xpacket?>` processing instructions:
//! `<?xpacket begin="…" id="…"?>` … body … optional whitespace padding … `<?xpacket end='r'|'w'?>`.
//! [`XmpPacket::scan`] recovers the body and the `writable`/`padding` details from raw bytes.

use vstd::prelude::*;
use vstd::slice::*;
use vstd::string::*;
use vstd::utf8::*;

use crate::encoding;
use crate::encoding::{decode_packet, encode_packet, XmpEncoding};
use crate::error;
use crate::error::{ErrorView, XmpError};
use crate::text;
use crate::text::{
    append_all, append_range, chars_of, copy_all, copy_range, find_after, has_at, same_bytes,
    same_text, scan_to, skip_white_from, slice_text, text_of, trailing_whitespace, utf8_text,
    white_trimmed, ByteClass,
};

verus! {

/// Half-open byte range in the decoded UTF-8 packet text.
#[derive(Debug, Clone, Copy, PartialEq, Eq, Structural)]
pub struct XmpSourceSpan {
    /// First byte belonging to the construct.
    pub start: usize,
    /// First byte after the construct.
    pub end: usize,
}

/// The span with the given ends.
pub open spec fn span(start: int, end: int) -> XmpSourceSpan {
    XmpSourceSpan { start: start as usize, end: end as usize }
}

/// Whether the text whose UTF-8 bytes are `b` can be sliced by `s`.
pub open spec fn sliceable(b: Seq<u8>, s: XmpSourceSpan) -> bool {
    &&& s.start <= s.end <= b.len()
    &&& is_char_boundary(b, s.start as int)
    &&& is_char_boundary(b, s.end as int)
}

/// The bytes of a span.
pub open spec fn span_bytes(b: Seq<u8>, s: XmpSourceSpan) -> Seq<u8> {
    b.subrange(s.start as int, s.end as int)
}

/// Exact packet-envelope locations in decoded UTF-8 text.
#[derive(Debug, Clone, Copy, PartialEq, Eq)]
pub struct XmpEnvelope {
    /// Opening `xpacket` processing instruction, when present.
    pub header: Option<XmpSourceSpan>,
    /// Exact body region between the packet instructions, including padding.
    pub body: XmpSourceSpan,
    /// RDF/XML content after trimming its surrounding packet whitespace.
    pub content: XmpSourceSpan,
    /// Trailing padding within [`Self::body`].
    pub padding: XmpSourceSpan,
    /// Closing `xpacket` processing instruction, when present.
    pub trailer: Option<XmpSourceSpan>,
}

/// The serialized form of an XMP packet: the RDF/XML body inside its `<?xpacket?>` wrapper.
///
/// A writable (`'w'`) packet carries trailing whitespace padding so it can be edited in place
/// without rewriting the whole file.
#[derive(Debug, PartialEq, Eq)]
pub struct XmpPacket {
    /// The RDF/XML body between the opening and closing `xpacket` instructions, with surrounding
    /// whitespace trimmed.
    pub body: String,
    /// Whether the packet is writable in place (`end='w'`) versus read-only (`end='r'`).
    pub writable: bool,
    /// The number of trailing padding bytes reserved for in-place edits.
    pub padding: usize,
}

/// The mathematical form of an [`XmpPacket`].
pub struct PacketView {
    /// See [`XmpPacket::body`].
    pub body: Seq<char>,
    /// See [`XmpPacket::writable`].
    pub writable: bool,
    /// See [`XmpPacket::padding`].
    pub padding: usize,
}

impl View for XmpPacket {
    type V = PacketView;

    open spec fn view(&self) -> PacketView {
        PacketView { body: self.body@, writable: self.writable, padding: self.padding }
    }
}

impl Clone for XmpPacket {
    fn clone(&self) -> (r: Self)
        ensures
            r@ == self@,
    {
        XmpPacket { body: self.body.clone(), writable: self.writable, padding: self.padding }
    }
}

/// An encoding-aware packet scan with exact decoded-source locations.
#[derive(Debug, PartialEq, Eq)]
pub struct DecodedXmpPacket {
    /// Parsed packet envelope and RDF/XML body.
    pub packet: XmpPacket,
    /// Encoding detected from the byte-order mark or XML leading-byte pattern.
    pub encoding: XmpEncoding,
    /// Whether the source began with the byte-order mark for [`Self::encoding`].
    pub had_bom: bool,
    /// Complete packet transcoded to UTF-8. Source spans index this string.
    pub decoded: String,
    /// Packet instruction, body, and padding spans in [`Self::decoded`].
    pub envelope: XmpEnvelope,
}

/// The mathematical form of a [`DecodedXmpPacket`].
pub struct DecodedView {
    /// See [`DecodedXmpPacket::packet`].
    pub packet: PacketView,
    /// See [`DecodedXmpPacket::encoding`].
    pub encoding: XmpEncoding,
    /// See [`DecodedXmpPacket::had_bom`].
    pub had_bom: bool,
    /// See [`DecodedXmpPacket::decoded`].
    pub decoded: Seq<char>,
    /// See [`DecodedXmpPacket::envelope`].
    pub envelope: XmpEnvelope,
}

impl View for DecodedXmpPacket {
    type V = DecodedView;

    open spec fn view(&self) -> DecodedView {
        DecodedView {
            packet: self.packet@,
            encoding: self.encoding,
            had_bom: self.had_bom,
            decoded: self.decoded@,
            envelope: self.envelope,
        }
    }
}

impl Clone for DecodedXmpPacket {
    fn clone(&self) -> (r: Self)
        ensures
            r@ == self@,
    {
        DecodedXmpPacket {
            packet: self.packet.clone(),
            encoding: self.encoding,
            had_bom: self.had_bom,
            decoded: self.decoded.clone(),
            envelope: self.envelope,
        }
    }
}

impl DecodedView {
    /// The UTF-8 bytes that the spans index.
    pub open spec fn bytes(self) -> Seq<u8> {
        encode_utf8(self.decoded)
    }

    /// Every span of the envelope can slice the decoded text, and the spans tile it: the body
    /// lies between the instructions, the content and the padding lie in the body, and the
    /// content is the packet's body text.
    pub open spec fn well_formed(self) -> bool {
        let b = self.bytes();
        let e = self.envelope;
        &&& sliceable(b, e.body)
        &&& sliceable(b, e.content)
        &&& sliceable(b, e.padding)
        &&& e.header matches Some(header) ==> sliceable(b, header) && header.end == e.body.start
        &&& e.header is None ==> e.body == span(0, b.len() as int) && e.trailer is None
        &&& e.trailer matches Some(trailer) ==> sliceable(b, trailer) && trailer.start
            == e.body.end
        &&& e.trailer is None ==> e.body.end == b.len()
        &&& e.body.start <= e.content.start && e.content.end <= e.body.end
        &&& e.body.start <= e.padding.start && e.padding.end == e.body.end
        &&& e.padding.end - e.padding.start == self.packet.padding
        &&& span_bytes(b, e.content) == encode_utf8(self.packet.body)
    }
}

// ---------------------------------------------------------------------------------------------
// The envelope
// ---------------------------------------------------------------------------------------------

/// The result of locating the body inside a packet's wrapper.
pub struct SplitPacket {
    /// Opening instruction.
    pub header: Option<XmpSourceSpan>,
    /// What lies between the instructions.
    pub body: XmpSourceSpan,
    /// Closing instruction.
    pub trailer: Option<XmpSourceSpan>,
    /// Whether the trailer requested in-place writability (`end='w'`).
    pub writable: bool,
}

/// Whether a closing instruction asks for in-place writability: whether it has an attribute `end`
/// with the value `w`.
#[verifier::opaque]
pub open spec fn asks_writable(instruction: Seq<u8>) -> bool {
    holds_attribute(
        instruction,
        encode_utf8("<?xpacket"@).len() as int,
        encode_utf8("end"@),
        encode_utf8("w"@),
    )
}

/// Where the packet body lies in UTF-8 text.
///
/// The header is the first `<?xpacket` up to the next `?>`, the trailer the `<?xpacket` that
/// follows it, up to its `?>` or the end. Without a header the whole text is the body.
pub open spec fn split(b: Seq<u8>) -> Result<SplitPacket, ErrorView> {
    let opening = encode_utf8("<?xpacket"@);
    let closing = encode_utf8("?>"@);
    match text::find_from(b, opening, 0) {
        None => Ok(
            SplitPacket {
                header: None,
                body: span(0, b.len() as int),
                trailer: None,
                writable: false,
            },
        ),
        Some(header) => match text::find_from(b, closing, header) {
            None => Err(ErrorView::Encoding("unterminated <?xpacket?> header"@)),
            Some(close) => match text::find_from(b, opening, close + 2) {
                None => Ok(
                    SplitPacket {
                        header: Some(span(header, close + 2)),
                        body: span(close + 2, b.len() as int),
                        trailer: None,
                        writable: false,
                    },
                ),
                Some(trailer) => {
                    let end = match text::find_from(b, closing, trailer) {
                        Some(e) => e + 2,
                        None => b.len() as int,
                    };
                    Ok(
                        SplitPacket {
                            header: Some(span(header, close + 2)),
                            body: span(close + 2, trailer),
                            trailer: Some(span(trailer, end)),
                            writable: asks_writable(b.subrange(trailer, end)),
                        },
                    )
                },
            },
        },
    }
}

/// Whether `literal` consists of `length` ASCII characters.
spec fn ascii_literal(literal: Seq<char>, length: nat) -> bool {
    &&& encode_utf8(literal).len() == length
    &&& forall|i: int| 0 <= i < length ==> #[trigger] encode_utf8(literal)[i] < 0x80
}

proof fn lemma_ascii_literal(literal: Seq<char>)
    requires
        is_ascii_chars(literal),
    ensures
        ascii_literal(literal, literal.len()),
{
    text::lemma_ascii_bytes(literal);
    assert forall|i: int| 0 <= i < literal.len() implies #[trigger] encode_utf8(literal)[i]
        < 0x80 by {
        is_ascii_chars_nat_bound(literal);
        assert((literal.index(i) as nat) < 128);
    }
}

/// The marks of the instructions are ASCII.
proof fn lemma_marks()
    ensures
        ascii_literal("<?xpacket"@, 9),
        ascii_literal("?>"@, 2),
{
    reveal_strlit("<?xpacket");
    reveal_strlit("?>");
    lemma_ascii_literal("<?xpacket"@);
    lemma_ascii_literal("?>"@);
}

/// Where the packet body lies in UTF-8 text.
pub fn split_packet(bytes: &[u8]) -> (r: Result<SplitPacket, XmpError>)
    ensures
        match r {
            Ok(s) => split(bytes@) == Ok::<SplitPacket, ErrorView>(s),
            Err(e) => split(bytes@) == Err::<SplitPacket, ErrorView>(e@),
        },
{
    proof {
        lemma_marks();
    }
    let length: usize = bytes.len();
    let opening = "<?xpacket".as_bytes();
    let closing = "?>".as_bytes();
    let header = match find_after(bytes, opening, 0) {
        Some(header) => header,
        None => {
            return Ok(
                SplitPacket {
                    header: None,
                    body: XmpSourceSpan { start: 0, end: length },
                    trailer: None,
                    writable: false,
                },
            );
        },
    };
    let body_start: usize = match find_after(bytes, closing, header) {
        Some(close) => close + 2,
        None => {
            return Err(XmpError::Encoding("unterminated <?xpacket?> header"));
        },
    };
    let header = Some(XmpSourceSpan { start: header, end: body_start });
    match find_after(bytes, opening, body_start) {
        Some(trailer) => {
            let trailer_end: usize = match find_after(bytes, closing, trailer) {
                Some(e) => e + 2,
                None => length,
            };
            let instruction = slice_subrange(bytes, trailer, trailer_end);
            proof {
                reveal(asks_writable);
                text::lemma_find_from(bytes@, encode_utf8("<?xpacket"@), body_start as int);
                lemma_mark_precedes_end(bytes@, trailer as int);
            }
            let writable = find_attribute(
                instruction,
                opening.len(),
                "end".as_bytes(),
                "w".as_bytes(),
            );
            Ok(
                SplitPacket {
                    header,
                    body: XmpSourceSpan { start: body_start, end: trailer },
                    trailer: Some(XmpSourceSpan { start: trailer, end: trailer_end }),
                    writable,
                },
            )
        },
        None => Ok(
            SplitPacket {
                header,
                body: XmpSourceSpan { start: body_start, end: length },
                trailer: None,
                writable: false,
            },
        ),
    }
}

/// The parts that a packet is split into can slice its text, and they lie one after the other.
pub open spec fn tiles(b: Seq<u8>, s: SplitPacket) -> bool {
    &&& sliceable(b, s.body)
    &&& s.header matches Some(header) ==> sliceable(b, header) && header.end == s.body.start
        && text::occurs_at(b, encode_utf8("<?xpacket"@), header.start as int)
    &&& s.header is None ==> s.body == span(0, b.len() as int) && s.trailer is None
    &&& s.trailer matches Some(trailer) ==> sliceable(b, trailer) && trailer.start == s.body.end
    &&& s.trailer is None ==> s.body.end == b.len()
}

/// Splitting a text yields parts that can slice it.
pub proof fn lemma_split_tiles(b: Seq<u8>)
    requires
        valid_utf8(b),
        b.len() <= usize::MAX,
    ensures
        split(b) matches Ok(s) ==> tiles(b, s),
{
    lemma_marks();
    let opening = encode_utf8("<?xpacket"@);
    let closing = encode_utf8("?>"@);
    is_char_boundary_start_end_of_seq(b);
    text::lemma_find_from(b, opening, 0);
    if let Some(header) = text::find_from(b, opening, 0) {
        text::lemma_ascii_occurrence(b, opening, header);
        text::lemma_find_from(b, closing, header);
        if let Some(close) = text::find_from(b, closing, header) {
            text::lemma_ascii_occurrence(b, closing, close);
            text::lemma_find_from(b, opening, close + 2);
            if let Some(trailer) = text::find_from(b, opening, close + 2) {
                text::lemma_ascii_occurrence(b, opening, trailer);
                text::lemma_find_from(b, closing, trailer);
                if let Some(e) = text::find_from(b, closing, trailer) {
                    text::lemma_ascii_occurrence(b, closing, e);
                }
            }
        }
    }
}

// ---------------------------------------------------------------------------------------------
// Scanning
// ---------------------------------------------------------------------------------------------

/// The packet that decoded text holds once its envelope has been located.
pub open spec fn enclosed(
    encoding: XmpEncoding,
    had_bom: bool,
    decoded: Seq<char>,
    s: SplitPacket,
) -> DecodedView {
    let exact_bytes = span_bytes(encode_utf8(decoded), s.body);
    let exact = decode_utf8(exact_bytes);
    let body = text::trimmed_text(exact);
    let leading = encode_utf8(exact.take(text::skip_white(exact, 0))).len();
    let content_start = s.body.start + leading;
    let padding = if s.header is None {
        0
    } else {
        exact_bytes.len() - text::space_trimmed_end(exact_bytes, exact_bytes.len() as int)
    };
    DecodedView {
        packet: PacketView { body, writable: s.writable, padding: padding as usize },
        encoding,
        had_bom,
        decoded,
        envelope: XmpEnvelope {
            header: s.header,
            body: s.body,
            content: span(content_start, content_start + encode_utf8(body).len()),
            padding: span(s.body.end - padding, s.body.end as int),
            trailer: s.trailer,
        },
    }
}

/// The packet that raw bytes hold, or why they hold none.
pub open spec fn scanned(bytes: Seq<u8>) -> Result<DecodedView, ErrorView> {
    match encoding::decoded_packet(bytes) {
        Err(e) => Err(e),
        Ok((encoding, had_bom, decoded)) => match split(encode_utf8(decoded)) {
            Err(e) => Err(e),
            Ok(s) => Ok(enclosed(encoding, had_bom, decoded, s)),
        },
    }
}

/// How a text lies around its trimmed form, in characters and in bytes.
proof fn lemma_trimmed_bytes(exact: Seq<char>)
    ensures
        ({
            let start = text::skip_white(exact, 0);
            let end = text::white_trimmed_end(exact, start, exact.len() as int);
            let lead = encode_utf8(exact.take(start));
            let body = encode_utf8(text::trimmed_text(exact));
            let b = encode_utf8(exact);
            &&& 0 <= start <= end <= exact.len()
            &&& lead.len() + body.len() <= b.len()
            &&& b.subrange(lead.len() as int, (lead.len() + body.len()) as int) == body
            &&& is_char_boundary(b, lead.len() as int)
            &&& is_char_boundary(b, (lead.len() + body.len()) as int)
        }),
{
    let start = text::skip_white(exact, 0);
    let end = text::white_trimmed_end(exact, start, exact.len() as int);
    text::lemma_trim_bounds(exact, 0, exact.len() as int);
    text::lemma_trim_bounds(exact, start, exact.len() as int);
    let head = exact.take(start);
    let body = text::trimmed_text(exact);
    let tail = exact.skip(end);
    assert(exact =~= head + body + tail);
    text::lemma_encode_concat(head, body);
    text::lemma_encode_concat(head + body, tail);
    text::lemma_encode_concat(body, tail);
    assert(exact =~= head + (body + tail));
    text::lemma_encode_concat(head, body + tail);
    text::lemma_text_bytes(head);
    text::lemma_text_bytes(body);
    text::lemma_text_bytes(tail);
    text::lemma_text_bytes(head + body);
    text::lemma_text_bytes(body + tail);
    text::lemma_boundary_at_join(encode_utf8(head), encode_utf8(body + tail));
    text::lemma_boundary_at_join(encode_utf8(head + body), encode_utf8(tail));
    let b = encode_utf8(exact);
    assert(b =~= encode_utf8(head) + encode_utf8(body) + encode_utf8(tail));
    assert(b.subrange(
        encode_utf8(head).len() as int,
        (encode_utf8(head).len() + encode_utf8(body).len()) as int,
    ) =~= encode_utf8(body));
}

/// A packet that was located in its text is well formed.
proof fn lemma_enclosed(encoding: XmpEncoding, had_bom: bool, decoded: Seq<char>, s: SplitPacket)
    requires
        encode_utf8(decoded).len() <= usize::MAX,
        tiles(encode_utf8(decoded), s),
    ensures
        enclosed(encoding, had_bom, decoded, s).well_formed(),
{
    let b = encode_utf8(decoded);
    text::lemma_text_bytes(decoded);
    let start = s.body.start as int;
    let end = s.body.end as int;
    let exact_bytes = span_bytes(b, s.body);
    text::lemma_boundary_within(b, start, start, end);
    let exact = decode_utf8(exact_bytes);
    decode_utf8_encode_utf8(exact_bytes);
    lemma_trimmed_bytes(exact);
    let lead = encode_utf8(exact.take(text::skip_white(exact, 0))).len() as int;
    let size = encode_utf8(text::trimmed_text(exact)).len() as int;
    text::lemma_boundary_of_part(b, start, end, lead);
    text::lemma_boundary_of_part(b, start, end, lead + size);
    assert(b.subrange(start + lead, start + lead + size) =~= exact_bytes.subrange(
        lead,
        lead + size,
    ));
    let kept = text::space_trimmed_end(exact_bytes, exact_bytes.len() as int);
    text::lemma_space_trimmed_end(exact_bytes, exact_bytes.len() as int);
    if s.header is Some && kept < exact_bytes.len() {
        assert(text::is_space_byte(exact_bytes[kept]));
        text::lemma_ascii_boundaries(exact_bytes, kept);
        text::lemma_boundary_of_part(b, start, end, kept);
    }
}

/// Every packet that a scan recovers is well formed: its spans can slice the decoded text.
pub proof fn law_scanned_spans_slice_the_text(bytes: Seq<u8>)
    requires
        scanned(bytes) matches Ok(d) && d.bytes().len() <= usize::MAX,
    ensures
        scanned(bytes) matches Ok(d) && d.well_formed(),
{
    let (encoding, had_bom, decoded) = encoding::decoded_packet(bytes)->Ok_0;
    text::lemma_text_bytes(decoded);
    lemma_split_tiles(encode_utf8(decoded));
    lemma_enclosed(encoding, had_bom, decoded, split(encode_utf8(decoded))->Ok_0);
}

impl XmpPacket {
    /// Recovers the packet structure from raw bytes.
    ///
    /// Decodes the packet, locates the `<?xpacket?>` wrapper (if present), and records whether
    /// the packet is writable and how much trailing padding it carries. If there is no wrapper
    /// the whole input is taken as the body (`writable = false`, `padding = 0`).
    ///
    /// # Errors
    ///
    /// Returns [`XmpError::Encoding`] if the bytes are malformed in their detected UTF encoding
    /// or if an opening `<?xpacket` instruction is unterminated.
    pub fn scan(bytes: &[u8]) -> (r: Result<XmpPacket, XmpError>)
        ensures
            match r {
                Ok(packet) => scanned(bytes@) matches Ok(d) && packet@ == d.packet,
                Err(e) => scanned(bytes@) == Err::<DecodedView, ErrorView>(e@),
            },
    {
        match Self::scan_with_source(bytes) {
            Ok(decoded) => Ok(decoded.packet),
            Err(e) => Err(e),
        }
    }

    /// Decodes and scans a packet while retaining its encoding and exact envelope locations.
    ///
    /// UTF-8, UTF-16, and UTF-32 in either byte order are accepted. A byte-order mark is used
    /// when present; otherwise the leading-byte patterns of XML text identify wide
    /// encodings. Locations are byte offsets in the returned UTF-8 [`DecodedXmpPacket::decoded`]
    /// string, so they remain directly sliceable even when the source used a wide encoding.
    ///
    /// # Errors
    ///
    /// Returns [`XmpError::Encoding`] for malformed code units, invalid Unicode scalar values,
    /// bytes that are not valid in the detected encoding, or an unterminated header.
    pub fn scan_with_source(bytes: &[u8]) -> (r: Result<DecodedXmpPacket, XmpError>)
        ensures
            error::outcome(r) == scanned(bytes@),
            r matches Ok(d) ==> d@.well_formed() && d@.bytes().len() <= usize::MAX,
    {
        let (encoding, had_bom, decoded) = match decode_packet(bytes) {
            Ok(parts) => parts,
            Err(e) => {
                return Err(e);
            },
        };
        let source = decoded.as_str().as_bytes();
        let _length: usize = source.len();
        let split = match split_packet(source) {
            Ok(split) => split,
            Err(e) => {
                return Err(e);
            },
        };
        proof {
            text::lemma_text_bytes(decoded@);
            lemma_split_tiles(encode_utf8(decoded@));
            lemma_enclosed(encoding, had_bom, decoded@, split);
        }
        let exact_body = slice_text(decoded.as_str(), split.body.start, split.body.end);
        proof {
            lemma_trimmed_bytes(exact_body@);
        }
        let chars = chars_of(exact_body);
        let first: usize = skip_white_from(chars.as_slice(), 0);
        let last: usize = white_trimmed(chars.as_slice(), first);
        let body = text_of(chars.as_slice(), first, last);
        let leading = text_of(chars.as_slice(), 0, first);
        assert(leading@ =~= exact_body@.take(first as int));
        let start: usize = split.body.start + leading.as_str().as_bytes().len();
        let content = XmpSourceSpan { start, end: start + body.as_str().as_bytes().len() };
        let padding: usize = if split.header.is_none() {
            0
        } else {
            trailing_whitespace(exact_body.as_bytes())
        };
        let envelope = XmpEnvelope {
            header: split.header,
            body: split.body,
            content,
            padding: XmpSourceSpan { start: split.body.end - padding, end: split.body.end },
            trailer: split.trailer,
        };
        Ok(
            DecodedXmpPacket {
                packet: XmpPacket { body, writable: split.writable, padding },
                encoding,
                had_bom,
                decoded,
                envelope,
            },
        )
    }
}

// ---------------------------------------------------------------------------------------------
// Attributes of the opening instruction
// ---------------------------------------------------------------------------------------------

/// Whether `c` ends an attribute name: ASCII white space or `=`.
pub open spec fn ends_name(c: char) -> bool {
    c == '\t' || c == '\n' || c == '\u{c}' || c == '\r' || c == ' ' || c == '='
}

/// The first index at or after `from` whose character ends a name, or the length.
pub open spec fn name_end(chars: Seq<char>, from: int) -> int
    decreases chars.len() - from,
{
    if from < 0 || from >= chars.len() {
        chars.len() as int
    } else if ends_name(chars[from]) {
        from
    } else {
        name_end(chars, from + 1)
    }
}

/// The first index at or after `from` that holds `c`, or the length.
pub open spec fn char_from(chars: Seq<char>, from: int, c: char) -> int
    decreases chars.len() - from,
{
    if from < 0 || from >= chars.len() {
        chars.len() as int
    } else if chars[from] == c {
        from
    } else {
        char_from(chars, from + 1, c)
    }
}

/// The attribute that an instruction holds from index `from` on, after white space: its name, its
/// value, and the index after it. `None` at the end of the instruction and where it is malformed.
pub open spec fn attribute_at(chars: Seq<char>, from: int) -> Option<(Seq<char>, Seq<char>, int)> {
    let length = chars.len();
    let start = text::skip_white(chars, from);
    let stop = name_end(chars, start);
    let equals = text::skip_white(chars, stop);
    let open = text::skip_white(chars, equals + 1);
    let close = char_from(chars, open + 1, chars[open]);
    if start >= length || (start + 1 < length && chars[start] == '?' && chars[start + 1] == '>') {
        None
    } else if stop >= length || equals >= length || chars[equals] != '=' {
        None
    } else if open >= length || (chars[open] != '\'' && chars[open] != '"') || close >= length {
        None
    } else {
        Some((chars.subrange(start, stop), chars.subrange(open + 1, close), close + 1))
    }
}

/// The attributes, as pairs of name and value, that can be read from index `from` on before the
/// instruction ends or is malformed.
pub open spec fn attributes_from(chars: Seq<char>, from: int) -> Seq<(Seq<char>, Seq<char>)>
    decreases chars.len() - from,
{
    if 0 <= from <= chars.len() {
        proof {
            lemma_attribute_advances(chars, from);
        }
        match attribute_at(chars, from) {
            Some((name, value, next)) => seq![(name, value)] + attributes_from(chars, next),
            None => Seq::empty(),
        }
    } else {
        Seq::empty()
    }
}

/// The value of the first attribute with the given name.
pub open spec fn first_value(
    attributes: Seq<(Seq<char>, Seq<char>)>,
    name: Seq<char>,
) -> Option<Seq<char>>
    decreases attributes.len(),
{
    if attributes.len() == 0 {
        None
    } else if attributes[0].0 == name {
        Some(attributes[0].1)
    } else {
        first_value(attributes.drop_first(), name)
    }
}

/// The value of an attribute of an `xpacket` instruction.
pub open spec fn instruction_attribute(instruction: Seq<char>, name: Seq<char>) -> Option<
    Seq<char>,
> {
    let opening = "<?xpacket"@;
    if opening.is_prefix_of(instruction) {
        first_value(attributes_from(instruction, opening.len() as int), name)
    } else {
        None
    }
}

/// Scans for an index stay between their start and the length.
proof fn lemma_char_scans(chars: Seq<char>, from: int, c: char)
    requires
        0 <= from <= chars.len(),
    ensures
        from <= name_end(chars, from) <= chars.len(),
        from <= char_from(chars, from, c) <= chars.len(),
    decreases chars.len() - from,
{
    if from < chars.len() {
        lemma_char_scans(chars, from + 1, c);
    }
}

/// Reading an attribute moves on within the instruction.
pub proof fn lemma_attribute_advances(chars: Seq<char>, from: int)
    requires
        0 <= from <= chars.len(),
    ensures
        attribute_at(chars, from) matches Some((_, _, next)) ==> from < next <= chars.len(),
{
    text::lemma_trim_bounds(chars, from, chars.len() as int);
    let start = text::skip_white(chars, from);
    lemma_char_scans(chars, start, '=');
    let stop = name_end(chars, start);
    text::lemma_trim_bounds(chars, stop, chars.len() as int);
    let equals = text::skip_white(chars, stop);
    if equals < chars.len() {
        text::lemma_trim_bounds(chars, equals + 1, chars.len() as int);
        let open = text::skip_white(chars, equals + 1);
        if open < chars.len() {
            lemma_char_scans(chars, open + 1, chars[open]);
        }
    }
}

/// The first index at or after `from` whose character ends a name, or the length.
fn find_name_end(chars: &[char], from: usize) -> (r: usize)
    requires
        from <= chars@.len(),
    ensures
        r == name_end(chars@, from as int),
        from <= r <= chars@.len(),
{
    let mut i: usize = from;
    while i < chars.len()
        invariant
            from <= i <= chars@.len(),
            name_end(chars@, from as int) == name_end(chars@, i as int),
        decreases chars@.len() - i,
    {
        let c = chars[i];
        if c == '\t' || c == '\n' || c == '\u{c}' || c == '\r' || c == ' ' || c == '=' {
            return i;
        }
        i = i + 1;
    }
    i
}

/// The first index at or after `from` that holds `c`, or the length.
fn find_char(chars: &[char], from: usize, c: char) -> (r: usize)
    requires
        from <= chars@.len(),
    ensures
        r == char_from(chars@, from as int, c),
        from <= r <= chars@.len(),
{
    let mut i: usize = from;
    while i < chars.len()
        invariant
            from <= i <= chars@.len(),
            char_from(chars@, from as int, c) == char_from(chars@, i as int, c),
        decreases chars@.len() - i,
    {
        if chars[i] == c {
            return i;
        }
        i = i + 1;
    }
    i
}

/// The attribute that an instruction holds from index `from` on: the ends of its name and of its
/// value. See [`attribute_at`].
fn read_attribute(chars: &[char], from: usize) -> (r: Option<(usize, usize, usize, usize)>)
    requires
        from <= chars@.len(),
    ensures
        match r {
            Some((start, stop, open, close)) => {
                &&& start <= stop <= chars@.len()
                &&& open <= close < chars@.len()
                &&& from <= close
                &&& attribute_at(chars@, from as int) == Some(
                    (
                        chars@.subrange(start as int, stop as int),
                        chars@.subrange(open as int, close as int),
                        close + 1,
                    ),
                )
            },
            None => attribute_at(chars@, from as int) is None,
        },
{
    let length: usize = chars.len();
    let start: usize = skip_white_from(chars, from);
    if start >= length || (length - start > 1 && chars[start] == '?' && chars[start + 1] == '>') {
        return None;
    }
    let stop: usize = find_name_end(chars, start);
    let equals: usize = skip_white_from(chars, stop);
    if equals >= length || chars[equals] != '=' {
        return None;
    }
    let open: usize = skip_white_from(chars, equals + 1);
    if open >= length {
        return None;
    }
    let quote = chars[open];
    if quote != '\'' && quote != '"' {
        return None;
    }
    let close: usize = find_char(chars, open + 1, quote);
    if close >= length {
        return None;
    }
    Some((start, stop, open + 1, close))
}

/// The value of an attribute of an `xpacket` instruction.
fn processing_instruction_attribute(instruction: &str, name: &str) -> (r: Option<String>)
    ensures
        error::option_view(r) == instruction_attribute(instruction@, name@),
{
    let chars = chars_of(instruction);
    let opening = chars_of("<?xpacket");
    let width: usize = opening.len();
    if chars.len() < width {
        return None;
    }
    let mut i: usize = 0;
    while i < width
        invariant
            i <= width == opening@.len(),
            width <= chars@.len(),
            chars@ == instruction@,
            opening@ == "<?xpacket"@,
            forall|j: int| 0 <= j < i ==> chars@[j] == opening@[j],
        decreases width - i,
    {
        if chars[i] != opening[i] {
            assert(instruction@.subrange(0, width as int)[i as int] != opening@[i as int]);
            return None;
        }
        i = i + 1;
    }
    assert("<?xpacket"@.is_prefix_of(instruction@));
    let ghost all = attributes_from(instruction@, width as int);
    let mut from: usize = width;
    loop
        invariant
            from <= chars@.len(),
            chars@ == instruction@,
            all == attributes_from(instruction@, width as int),
            first_value(all, name@) == first_value(
                attributes_from(instruction@, from as int),
                name@,
            ),
            width == "<?xpacket"@.len(),
            "<?xpacket"@.is_prefix_of(instruction@),
        decreases chars@.len() - from,
    {
        proof {
            lemma_attribute_advances(instruction@, from as int);
        }
        match read_attribute(chars.as_slice(), from) {
            Some((start, stop, open, close)) => {
                let candidate = text_of(chars.as_slice(), start, stop);
                proof {
                    let rest = attributes_from(instruction@, close + 1);
                    let here = attributes_from(instruction@, from as int);
                    assert(here.drop_first() =~= rest);
                }
                if same_text(candidate.as_str(), name) {
                    return Some(text_of(chars.as_slice(), open, close));
                }
                from = close + 1;
            },
            None => {
                return None;
            },
        }
    }
}

impl DecodedView {
    /// The value of an attribute of the opening instruction.
    pub open spec fn header_attribute(self, name: Seq<char>) -> Option<Seq<char>> {
        match self.envelope.header {
            Some(header) => instruction_attribute(
                decode_utf8(span_bytes(self.bytes(), header)),
                name,
            ),
            None => None,
        }
    }

    /// The packet bytes in the source encoding, with what lies between two offsets of the decoded
    /// text replaced.
    pub open spec fn respliced(self, start: int, end: int, replacement: Seq<u8>) -> Seq<u8> {
        let b = self.bytes();
        let rewritten = b.subrange(0, start) + replacement + b.subrange(end, b.len() as int);
        encoding::encoded_packet(decode_utf8(rewritten), self.encoding, self.had_bom)
    }
}

impl DecodedXmpPacket {
    /// Returns a decoded attribute from the opening `xpacket` instruction.
    ///
    /// Both XML quote styles are accepted. `None` means either that the packet is bare or the
    /// requested attribute is absent or malformed.
    #[must_use]
    pub fn header_attribute(&self, name: &str) -> (r: Option<String>)
        requires
            self.envelope.header matches Some(header) ==> sliceable(self@.bytes(), header),
        ensures
            error::option_view(r) == self@.header_attribute(name@),
    {
        match self.envelope.header {
            Some(header) => processing_instruction_attribute(
                slice_text(self.decoded.as_str(), header.start, header.end),
                name,
            ),
            None => None,
        }
    }

    /// The packet in its source encoding, with a part of its decoded text replaced.
    pub(crate) fn resplice(&self, start: usize, end: usize, replacement: &[u8]) -> (r: Vec<u8>)
        requires
            start <= end <= self@.bytes().len(),
            is_char_boundary(self@.bytes(), start as int),
            is_char_boundary(self@.bytes(), end as int),
            valid_utf8(replacement@),
        ensures
            r@ == self@.respliced(start as int, end as int, replacement@),
    {
        let source = self.decoded.as_str().as_bytes();
        let mut bytes: Vec<u8> = Vec::new();
        append_range(&mut bytes, source, 0, start);
        append_all(&mut bytes, replacement);
        append_range(&mut bytes, source, end, source.len());
        proof {
            let b = self@.bytes();
            text::lemma_text_bytes(self.decoded@);
            valid_utf8_split(b, start as int);
            valid_utf8_split(b, end as int);
            assert(bytes@ =~= b.subrange(0, start as int) + replacement@ + b.subrange(
                end as int,
                b.len() as int,
            ));
            valid_utf8_concat(b.subrange(0, start as int), replacement@);
            valid_utf8_concat(
                b.subrange(0, start as int) + replacement@,
                b.subrange(end as int, b.len() as int),
            );
        }
        match utf8_text(bytes.as_slice()) {
            Some(text) => encode_packet(text.as_str(), self.encoding, self.had_bom),
            None => {
                assert(false);
                bytes
            },
        }
    }
}

/// What stands at some place among the attributes of an instruction or of a tag.
pub enum HeaderStep {
    /// The end of an instruction.
    End,
    /// Something that is no attribute.
    Malformed,
    /// An attribute: its name, its value, and the index after it.
    Attribute(Seq<u8>, Seq<u8>, int),
}

/// What stands among attributes from `cursor` on, after white space.
pub open spec fn header_step(b: Seq<u8>, cursor: int) -> HeaderStep {
    let start = text::scan(b, cursor, ByteClass::NonSpace);
    let stop = text::scan(b, start, ByteClass::AttributeNameEnd);
    let equals = text::scan(b, stop, ByteClass::NonSpace);
    let open = text::scan(b, equals + 1, ByteClass::NonSpace);
    let close = text::scan(b, open + 1, ByteClass::Exactly(b[open]));
    if text::occurs_at(b, encode_utf8("?>"@), start) {
        HeaderStep::End
    } else if equals >= b.len() || b[equals] != 0x3D {
        HeaderStep::Malformed
    } else if open >= b.len() || (b[open] != 0x27 && b[open] != 0x22) || close >= b.len() {
        HeaderStep::Malformed
    } else {
        HeaderStep::Attribute(b.subrange(start, stop), b.subrange(open + 1, close), close + 1)
    }
}

/// What is left of an opening instruction from `cursor` on when the named attributes are dropped,
/// each with the white space before it. `None` when the instruction is malformed.
pub open spec fn kept_from(b: Seq<u8>, cursor: int, names: Seq<Seq<u8>>) -> Option<Seq<u8>>
    decreases b.len() - cursor,
{
    if cursor < 0 || cursor >= b.len() {
        Some(Seq::empty())
    } else {
        proof {
            lemma_header_step(b, cursor);
        }
        match header_step(b, cursor) {
            HeaderStep::End => Some(b.subrange(cursor, b.len() as int)),
            HeaderStep::Malformed => None,
            HeaderStep::Attribute(name, _, next) => match kept_from(b, next, names) {
                Some(rest) => Some(
                    if names.contains(name) {
                        rest
                    } else {
                        b.subrange(cursor, next) + rest
                    },
                ),
                None => None,
            },
        }
    }
}

/// An opening instruction without the named attributes; `None` when none of them is there or the
/// instruction is malformed.
pub open spec fn without_attributes(b: Seq<u8>, names: Seq<Seq<u8>>) -> Option<Seq<u8>> {
    let opening = encode_utf8("<?xpacket"@).len() as int;
    match kept_from(b, opening, names) {
        Some(kept) => if opening + kept.len() < b.len() {
            Some(b.subrange(0, opening) + kept)
        } else {
            None
        },
        None => None,
    }
}

/// The bytes of some names.
pub open spec fn names_bytes(names: Seq<&str>) -> Seq<Seq<u8>> {
    names.map_values(|name: &str| encode_utf8(name@))
}

/// A packet without the named attributes of its opening instruction.
pub open spec fn header_reduced(bytes: Seq<u8>, names: Seq<Seq<u8>>) -> Result<
    Seq<u8>,
    ErrorView,
> {
    match scanned(bytes) {
        Err(e) => Err(e),
        Ok(d) => match d.envelope.header {
            None => Ok(bytes),
            Some(header) => match without_attributes(span_bytes(d.bytes(), header), names) {
                None => Ok(bytes),
                Some(rewritten) => Ok(
                    d.respliced(header.start as int, header.end as int, rewritten),
                ),
            },
        },
    }
}

/// Whether an attribute with the given name and value stands among attributes from `cursor` on.
/// After something that is no attribute the search goes on at the next white space.
pub open spec fn holds_attribute(b: Seq<u8>, cursor: int, name: Seq<u8>, value: Seq<u8>) -> bool
    decreases b.len() - cursor,
{
    if cursor < 0 || cursor >= b.len() {
        false
    } else {
        proof {
            lemma_header_step(b, cursor);
            lemma_next_space(b, cursor);
        }
        match header_step(b, cursor) {
            HeaderStep::End => false,
            HeaderStep::Malformed => holds_attribute(b, next_space(b, cursor), name, value),
            HeaderStep::Attribute(found, held, next) => (found == name && held == value)
                || holds_attribute(b, next, name, value),
        }
    }
}

/// The index of the white space behind what stands at `cursor`.
pub open spec fn next_space(b: Seq<u8>, cursor: int) -> int {
    text::scan(b, text::scan(b, cursor, ByteClass::NonSpace), ByteClass::Space)
}

/// The search goes on further behind.
pub proof fn lemma_next_space(b: Seq<u8>, cursor: int)
    requires
        0 <= cursor < b.len(),
    ensures
        cursor < next_space(b, cursor) <= b.len(),
{
    let start = text::scan(b, cursor, ByteClass::NonSpace);
    text::lemma_scan(b, cursor, ByteClass::NonSpace);
    text::lemma_scan(b, start, ByteClass::Space);
}

/// Whether an attribute with the given name and value stands in `b`. See [`holds_attribute`].
pub(crate) fn find_attribute(b: &[u8], cursor: usize, name: &[u8], value: &[u8]) -> (r: bool)
    requires
        cursor <= b@.len(),
    ensures
        r == holds_attribute(b@, cursor as int, name@, value@),
{
    let mut at: usize = cursor;
    while at < b.len()
        invariant
            at <= b@.len(),
            holds_attribute(b@, cursor as int, name@, value@) == holds_attribute(
                b@,
                at as int,
                name@,
                value@,
            ),
        decreases b@.len() - at,
    {
        proof {
            lemma_header_step(b@, at as int);
            lemma_next_space(b@, at as int);
        }
        match read_header_step(b, at) {
            FoundStep::Attribute { start, stop, open, next } => {
                if same_bytes(slice_subrange(b, start, stop), name) && same_bytes(
                    slice_subrange(b, open, next - 1),
                    value,
                ) {
                    return true;
                }
                at = next;
            },
            FoundStep::Malformed => {
                let start: usize = scan_to(b, at, ByteClass::NonSpace);
                at = scan_to(b, start, ByteClass::Space);
            },
            FoundStep::End => {
                return false;
            },
        }
    }
    false
}

/// An attribute of an instruction lies within it and ends on a boundary of its text.
pub proof fn lemma_header_step(b: Seq<u8>, cursor: int)
    requires
        0 <= cursor <= b.len(),
    ensures
        header_step(b, cursor) matches HeaderStep::Attribute(_, _, next) ==> cursor < next <= b.len()
            && b[next - 1] < 0x80,
{
    text::lemma_scan(b, cursor, ByteClass::NonSpace);
    let start = text::scan(b, cursor, ByteClass::NonSpace);
    text::lemma_scan(b, start, ByteClass::AttributeNameEnd);
    let stop = text::scan(b, start, ByteClass::AttributeNameEnd);
    text::lemma_scan(b, stop, ByteClass::NonSpace);
    let equals = text::scan(b, stop, ByteClass::NonSpace);
    if equals < b.len() {
        text::lemma_scan(b, equals + 1, ByteClass::NonSpace);
        let open = text::scan(b, equals + 1, ByteClass::NonSpace);
        if open < b.len() {
            text::lemma_scan(b, open + 1, ByteClass::Exactly(b[open]));
        }
    }
}

/// What is left of an instruction is text.
proof fn lemma_kept_is_text(b: Seq<u8>, cursor: int, names: Seq<Seq<u8>>)
    requires
        valid_utf8(b),
        0 <= cursor <= b.len(),
        is_char_boundary(b, cursor),
    ensures
        kept_from(b, cursor, names) matches Some(kept) ==> valid_utf8(kept) && kept.len() <= b.len()
            - cursor,
    decreases b.len() - cursor,
{
    if cursor < b.len() {
        lemma_header_step(b, cursor);
        match header_step(b, cursor) {
            HeaderStep::End => {
                valid_utf8_split(b, cursor);
            },
            HeaderStep::Malformed => {},
            HeaderStep::Attribute(name, _, next) => {
                text::lemma_ascii_boundaries(b, next - 1);
                lemma_kept_is_text(b, next, names);
                text::lemma_boundary_within(b, cursor, cursor, next);
                if let Some(rest) = kept_from(b, next, names) {
                    valid_utf8_concat(b.subrange(cursor, next), rest);
                }
            },
        }
    }
}

/// Whether `name` is one of `names`.
fn is_listed(names: &[&str], name: &[u8]) -> (r: bool)
    ensures
        r == names_bytes(names@).contains(name@),
{
    let mut i: usize = 0;
    while i < names.len()
        invariant
            i <= names@.len(),
            forall|j: int| 0 <= j < i ==> #[trigger] names_bytes(names@)[j] != name@,
        decreases names@.len() - i,
    {
        if same_bytes(names[i].as_bytes(), name) {
            assert(names_bytes(names@)[i as int] == name@);
            return true;
        }
        i = i + 1;
    }
    false
}

/// What [`read_header_step`] found.
enum FoundStep {
    End,
    Malformed,
    Attribute { start: usize, stop: usize, open: usize, next: usize },
}

/// What stands in an opening instruction from `cursor` on. See [`header_step`].
fn read_header_step(b: &[u8], cursor: usize) -> (r: FoundStep)
    requires
        cursor <= b@.len(),
    ensures
        match r {
            FoundStep::End => header_step(b@, cursor as int) is End,
            FoundStep::Malformed => header_step(b@, cursor as int) is Malformed,
            FoundStep::Attribute { start, stop, open, next } => {
                &&& start <= stop <= b@.len()
                &&& open < next <= b@.len()
                &&& header_step(b@, cursor as int) == HeaderStep::Attribute(
                    b@.subrange(start as int, stop as int),
                    b@.subrange(open as int, next - 1),
                    next as int,
                )
            },
        },
{
    let length: usize = b.len();
    let start: usize = scan_to(b, cursor, ByteClass::NonSpace);
    if has_at(b, "?>".as_bytes(), start) {
        return FoundStep::End;
    }
    let stop: usize = scan_to(b, start, ByteClass::AttributeNameEnd);
    let equals: usize = scan_to(b, stop, ByteClass::NonSpace);
    if equals >= length || b[equals] != 0x3D {
        return FoundStep::Malformed;
    }
    let open: usize = scan_to(b, equals + 1, ByteClass::NonSpace);
    if open >= length {
        return FoundStep::Malformed;
    }
    let quote: u8 = b[open];
    if quote != 0x27 && quote != 0x22 {
        return FoundStep::Malformed;
    }
    let close: usize = scan_to(b, open + 1, ByteClass::Exactly(quote));
    if close >= length {
        return FoundStep::Malformed;
    }
    FoundStep::Attribute { start, stop, open: open + 1, next: close + 1 }
}

/// An opening instruction without the named attributes. See [`without_attributes`].
fn remove_processing_instruction_attributes(instruction: &[u8], names: &[&str]) -> (r: Option<
    Vec<u8>,
>)
    requires
        instruction@.len() >= encode_utf8("<?xpacket"@).len(),
    ensures
        error::option_view(r) == without_attributes(instruction@, names_bytes(names@)),
{
    let ghost all = names_bytes(names@);
    let opening: usize = "<?xpacket".as_bytes().len();
    let mut output = copy_range(instruction, 0, opening);
    let ghost mut done: Seq<u8> = Seq::empty();
    let mut cursor: usize = opening;
    let mut changed = false;
    let mut ended = false;
    assert(output@ =~= instruction@.subrange(0, opening as int) + done);
    proof {
        if let Some(rest) = kept_from(instruction@, opening as int, all) {
            assert(done + rest =~= rest);
        }
    }
    while !ended && cursor < instruction.len()
        invariant
            opening == encode_utf8("<?xpacket"@).len(),
            opening <= cursor <= instruction@.len(),
            all == names_bytes(names@),
            output@ == instruction@.subrange(0, opening as int) + done,
            kept_from(instruction@, opening as int, all) == (if ended {
                Some(done)
            } else {
                match kept_from(instruction@, cursor as int, all) {
                    Some(rest) => Some(done + rest),
                    None => None,
                }
            }),
            !ended ==> done.len() <= cursor - opening,
            !ended ==> (changed <==> done.len() < cursor - opening),
            ended ==> (changed <==> opening + done.len() < instruction@.len()),
        decreases (if ended { 0int } else { 1int }), instruction@.len() - cursor,
    {
        let ghost before = done;
        proof {
            lemma_header_step(instruction@, cursor as int);
        }
        match read_header_step(instruction, cursor) {
            FoundStep::End => {
                append_range(&mut output, instruction, cursor, instruction.len());
                proof {
                    done = before + instruction@.subrange(cursor as int, instruction@.len() as int);
                    assert(output@ =~= instruction@.subrange(0, opening as int) + done);
                }
                ended = true;
            },
            FoundStep::Malformed => {
                return None;
            },
            FoundStep::Attribute { start, stop, next, .. } => {
                if is_listed(names, slice_subrange(instruction, start, stop)) {
                    changed = true;
                } else {
                    append_range(&mut output, instruction, cursor, next);
                    proof {
                        done = before + instruction@.subrange(cursor as int, next as int);
                        assert(output@ =~= instruction@.subrange(0, opening as int) + done);
                        if let Some(rest) = kept_from(instruction@, next as int, all) {
                            assert(before + (instruction@.subrange(cursor as int, next as int)
                                + rest) =~= done + rest);
                        }
                    }
                }
                cursor = next;
            },
        }
    }
    assert(!ended ==> done + Seq::<u8>::empty() =~= done);
    if changed {
        Some(output)
    } else {
        None
    }
}

impl XmpPacket {
    /// Removes named attributes from the opening `xpacket` processing instruction.
    ///
    /// Both XML quote styles and arbitrary XML whitespace are accepted. The packet's source
    /// encoding and every byte outside the removed attribute spans are preserved. A bare RDF/XML
    /// document is returned unchanged.
    ///
    /// # Errors
    ///
    /// Returns [`XmpError::Encoding`] when the packet cannot be decoded or its header is
    /// unterminated.
    pub fn remove_header_attributes(bytes: &[u8], names: &[&str]) -> (r: Result<Vec<u8>, XmpError>)
        ensures
            error::outcome(r) == header_reduced(bytes@, names_bytes(names@)),
    {
        let decoded = match Self::scan_with_source(bytes) {
            Ok(decoded) => decoded,
            Err(e) => {
                return Err(e);
            },
        };
        let header = match decoded.envelope.header {
            Some(header) => header,
            None => {
                return Ok(copy_all(bytes));
            },
        };
        let ghost b = decoded@.bytes();
        let source = decoded.decoded.as_str().as_bytes();
        let instruction = slice_subrange(source, header.start, header.end);
        proof {
            text::lemma_text_bytes(decoded.decoded@);
            lemma_header_opens(bytes@);
            text::lemma_boundary_within(b, header.start as int, header.start as int, header.end as int);
            lemma_reduced_is_text(instruction@, names_bytes(names@));
        }
        match remove_processing_instruction_attributes(instruction, names) {
            Some(rewritten) => Ok(
                decoded.resplice(header.start, header.end, rewritten.as_slice()),
            ),
            None => Ok(copy_all(bytes)),
        }
    }
}

/// The end of the mark that opens an instruction is a boundary.
proof fn lemma_opening_boundary(instruction: Seq<u8>)
    requires
        valid_utf8(instruction),
        text::occurs_at(instruction, encode_utf8("<?xpacket"@), 0),
    ensures
        is_char_boundary(instruction, encode_utf8("<?xpacket"@).len() as int),
{
    lemma_marks();
    text::lemma_ascii_occurrence(instruction, encode_utf8("<?xpacket"@), 0);
}

/// An instruction without some of its attributes is text.
pub proof fn lemma_reduced_is_text(instruction: Seq<u8>, names: Seq<Seq<u8>>)
    requires
        valid_utf8(instruction),
        text::occurs_at(instruction, encode_utf8("<?xpacket"@), 0),
    ensures
        without_attributes(instruction, names) matches Some(reduced) ==> valid_utf8(reduced),
{
    let opening = encode_utf8("<?xpacket"@).len() as int;
    lemma_opening_boundary(instruction);
    lemma_kept_is_text(instruction, opening, names);
    if let Some(kept) = kept_from(instruction, opening, names) {
        valid_utf8_split(instruction, opening);
        valid_utf8_concat(instruction.subrange(0, opening), kept);
    }
}

/// An instruction ends behind the mark that it begins with.
proof fn lemma_mark_precedes_end(b: Seq<u8>, at: int)
    requires
        text::occurs_at(b, encode_utf8("<?xpacket"@), at),
    ensures
        text::find_from(b, encode_utf8("?>"@), at) matches Some(close) ==> close >= at
            + encode_utf8("<?xpacket"@).len(),
{
    let opening = encode_utf8("<?xpacket"@);
    text::lemma_find_from(b, encode_utf8("?>"@), at);
    lemma_mark_letters();
    let part = b.subrange(at, at + opening.len());
    if let Some(close) = text::find_from(b, encode_utf8("?>"@), at) {
        if close < at + opening.len() {
            let mark = b.subrange(close, close + 2);
            assert(b[close] == mark[0] && b[close + 1] == mark[1]);
            assert(b[close] == part[close - at]);
            assert(close + 1 < at + opening.len() ==> b[close + 1] == part[close + 1 - at]);
        }
    }
}

/// The header of a scanned packet begins with its mark.
pub proof fn lemma_header_opens(bytes: Seq<u8>)
    requires
        scanned(bytes) matches Ok(d) && d.bytes().len() <= usize::MAX,
    ensures
        scanned(bytes) matches Ok(d) && (d.envelope.header matches Some(header)
            ==> text::occurs_at(span_bytes(d.bytes(), header), encode_utf8("<?xpacket"@), 0)),
{
    lemma_marks();
    let d = scanned(bytes)->Ok_0;
    let b = d.bytes();
    text::lemma_text_bytes(d.decoded);
    let opening = encode_utf8("<?xpacket"@);
    let closing = encode_utf8("?>"@);
    text::lemma_find_from(b, opening, 0);
    if let Some(header) = text::find_from(b, opening, 0) {
        text::lemma_find_from(b, closing, header);
        let close = text::find_from(b, closing, header)->Some_0;
        let part = b.subrange(header, header + opening.len());
        assert(opening[0] == part[0] && opening[1] == part[1]);
        lemma_mark_letters();
        if close < header + opening.len() {
            let mark = b.subrange(close, close + 2);
            assert(mark[0] == 0x3F);
            assert(b[close] == mark[0]);
            assert(b[close] == part[close - header]);
            assert(close + 1 < header + opening.len() ==> b[close + 1] == part[close + 1 - header]);
            assert(b[close + 1] == mark[1]);
        }
        if let Some(h) = d.envelope.header {
            assert(span_bytes(b, h).subrange(0, opening.len() as int) =~= part);
        }
    }
}

/// The letters of the marks.
proof fn lemma_mark_letters()
    ensures
        ({
            let opening = encode_utf8("<?xpacket"@);
            let closing = encode_utf8("?>"@);
            &&& closing == seq![0x3Fu8, 0x3E]
            &&& opening.len() == 9
            &&& opening == seq![0x3Cu8, 0x3F, 0x78, 0x70, 0x61, 0x63, 0x6B, 0x65, 0x74]
        }),
{
    reveal_strlit("<?xpacket");
    reveal_strlit("?>");
    text::lemma_ascii_bytes("<?xpacket"@);
    text::lemma_ascii_bytes("?>"@);
    assert(encode_utf8("?>"@) =~= seq![0x3Fu8, 0x3E]);
    assert(encode_utf8("<?xpacket"@) =~= seq![
        0x3Cu8,
        0x3F,
        0x78,
        0x70,
        0x61,
        0x63,
        0x6B,
        0x65,
        0x74,
    ]);
}

// ---------------------------------------------------------------------------------------------
// Transcoding
// ---------------------------------------------------------------------------------------------

/// The size of a code unit of an encoding, in bytes.
pub open spec fn unit_size(encoding: XmpEncoding) -> nat {
    match encoding {
        XmpEncoding::Utf8 => 1,
        XmpEncoding::Utf16Be | XmpEncoding::Utf16Le => 2,
        XmpEncoding::Utf32Be | XmpEncoding::Utf32Le => 4,
    }
}

/// The bytes without an incomplete code unit at their end.
pub open spec fn whole_units(bytes: Seq<u8>) -> Seq<u8> {
    bytes.take(bytes.len() - bytes.len() % unit_size(encoding::detected(bytes).0))
}

/// The packet in UTF-8. A packet that is UTF-8 already stays as it is; one in a wide encoding that
/// cannot be scanned gets a second chance without the incomplete code unit at its end.
pub open spec fn transcoded(bytes: Seq<u8>) -> Result<Seq<u8>, ErrorView> {
    match scanned(bytes) {
        Ok(d) => if d.encoding == XmpEncoding::Utf8 {
            Ok(bytes)
        } else {
            Ok(d.bytes())
        },
        Err(e) => if whole_units(bytes).len() == bytes.len() {
            Err(e)
        } else {
            match scanned(whole_units(bytes)) {
                Ok(d) => Ok(d.bytes()),
                Err(e) => Err(e),
            }
        },
    }
}

impl XmpPacket {
    /// Transcodes a packet to UTF-8 while leaving an existing UTF-8 byte sequence untouched.
    ///
    /// Packet instructions, RDF/XML spelling, and padding are preserved. This is intended for
    /// repair operations that require a UTF-8 representation but must not parse and re-emit the
    /// property graph merely to change its character encoding.
    ///
    /// # Errors
    ///
    /// Returns [`XmpError::Encoding`] when the source has malformed code units.
    pub fn transcode_to_utf8(bytes: &[u8]) -> (r: Result<Vec<u8>, XmpError>)
        ensures
            error::outcome(r) == transcoded(bytes@),
    {
        let encoding = XmpEncoding::detect(bytes);
        let decoded = match Self::scan_with_source(bytes) {
            Ok(decoded) => {
                if encoding == XmpEncoding::Utf8 {
                    return Ok(copy_all(bytes));
                }
                decoded
            },
            Err(first_error) => {
                let unit: usize = match encoding {
                    XmpEncoding::Utf8 => 1,
                    XmpEncoding::Utf16Be | XmpEncoding::Utf16Le => 2,
                    XmpEncoding::Utf32Be | XmpEncoding::Utf32Le => 4,
                };
                let remainder: usize = bytes.len() % unit;
                if remainder == 0 {
                    return Err(first_error);
                }
                let whole = slice_subrange(bytes, 0, bytes.len() - remainder);
                assert(whole@ =~= whole_units(bytes@));
                match Self::scan_with_source(whole) {
                    Ok(decoded) => decoded,
                    Err(e) => {
                        return Err(e);
                    },
                }
            },
        };
        Ok(copy_all(decoded.decoded.as_str().as_bytes()))
    }
}

/// Transcoding leaves UTF-8 as it is byte for byte. Of a packet in another encoding it makes UTF-8
/// that scans to the same packet: the same text with the same instructions, body and padding. Left
/// out is a text that, in UTF-8, begins with what reads as a mark of an encoding.
pub proof fn law_transcoding_keeps_the_packet(bytes: Seq<u8>)
    ensures
        scanned(bytes) matches Ok(d) ==> (transcoded(bytes) matches Ok(out) && (if d.encoding
            == XmpEncoding::Utf8 {
            out == bytes
        } else {
            encoding::self_describing(d.decoded, XmpEncoding::Utf8, false) ==> scanned(out) == Ok::<
                DecodedView,
                ErrorView,
            >(DecodedView { encoding: XmpEncoding::Utf8, had_bom: false, ..d })
        })),
{
    if let Ok(d) = scanned(bytes) {
        encoding::law_packet_round_trip(d.decoded, XmpEncoding::Utf8, false);
    }
}

/// A scan stops at the first byte of its class.
pub proof fn lemma_scan_stops(s: Seq<u8>, from: int, class: ByteClass, at: int)
    requires
        0 <= from <= at < s.len(),
        text::in_class(class, s[at]),
        forall|i: int| from <= i < at ==> !text::in_class(class, #[trigger] s[i]),
    ensures
        text::scan(s, from, class) == at,
    decreases at - from,
{
    if from < at {
        lemma_scan_stops(s, from + 1, class, at);
    }
}

/// A scan that stops within a part of an instruction stops at the same place of an equal part.
proof fn lemma_scan_moves(
    a: Seq<u8>,
    b: Seq<u8>,
    from: int,
    end: int,
    shift: int,
    class: ByteClass,
)
    requires
        0 <= from <= end <= a.len(),
        0 <= from + shift <= end + shift <= b.len(),
        forall|i: int| from <= i < end ==> #[trigger] a[i] == b[i + shift],
        text::scan(a, from, class) < end,
    ensures
        text::scan(b, from + shift, class) == text::scan(a, from, class) + shift,
{
    text::lemma_scan(a, from, class);
    let at = text::scan(a, from, class);
    assert forall|i: int| from + shift <= i < at + shift implies !text::in_class(
        class,
        #[trigger] b[i],
    ) by {
        assert(a[i - shift] == b[i]);
    }
    lemma_scan_stops(b, from + shift, class, at + shift);
}

/// An attribute of an instruction is one in every instruction that holds the same bytes.
proof fn lemma_attribute_moves(a: Seq<u8>, cursor: int, b: Seq<u8>, shift: int)
    requires
        0 <= cursor <= a.len(),
        0 <= cursor + shift,
        header_step(a, cursor) matches HeaderStep::Attribute(_, _, next) && next + shift <= b.len()
            && forall|i: int| cursor <= i < next ==> #[trigger] a[i] == b[i + shift],
    ensures
        header_step(b, cursor + shift) == HeaderStep::Attribute(
            header_step(a, cursor)->Attribute_0,
            header_step(a, cursor)->Attribute_1,
            header_step(a, cursor)->Attribute_2 + shift,
        ),
{
    let next = header_step(a, cursor)->Attribute_2;
    text::lemma_scan(a, cursor, ByteClass::NonSpace);
    let start = text::scan(a, cursor, ByteClass::NonSpace);
    text::lemma_scan(a, start, ByteClass::AttributeNameEnd);
    let stop = text::scan(a, start, ByteClass::AttributeNameEnd);
    text::lemma_scan(a, stop, ByteClass::NonSpace);
    let equals = text::scan(a, stop, ByteClass::NonSpace);
    text::lemma_scan(a, equals + 1, ByteClass::NonSpace);
    let open = text::scan(a, equals + 1, ByteClass::NonSpace);
    let quote = a[open];
    text::lemma_scan(a, open + 1, ByteClass::Exactly(quote));
    lemma_scan_moves(a, b, cursor, next, shift, ByteClass::NonSpace);
    lemma_scan_moves(a, b, start, next, shift, ByteClass::AttributeNameEnd);
    lemma_scan_moves(a, b, stop, next, shift, ByteClass::NonSpace);
    lemma_scan_moves(a, b, equals + 1, next, shift, ByteClass::NonSpace);
    lemma_scan_moves(a, b, open + 1, next, shift, ByteClass::Exactly(quote));
    assert(a[start] == b[start + shift]);
    assert(a[open] == b[open + shift]);
    assert(a[equals] == b[equals + shift]);
    assert(b[start + shift] != 0x3F);
    lemma_instruction_end();
    assert(!text::occurs_at(b, encode_utf8("?>"@), start + shift)) by {
        if text::occurs_at(b, encode_utf8("?>"@), start + shift) {
            assert(b.subrange(start + shift, start + shift + 2)[0] == b[start + shift]);
        }
    }
    assert(b.subrange(start + shift, stop + shift) =~= a.subrange(start, stop));
    assert(b.subrange(open + 1 + shift, next - 1 + shift) =~= a.subrange(open + 1, next - 1));
}

/// The bytes of `?>`.
pub proof fn lemma_instruction_end()
    ensures
        encode_utf8("?>"@) == seq![0x3Fu8, 0x3Eu8],
{
    reveal_strlit("?>");
    text::lemma_ascii_bytes("?>"@);
    assert(encode_utf8("?>"@) =~= seq![0x3Fu8, 0x3Eu8]);
}

/// The end of an instruction is one after every beginning.
proof fn lemma_end_moves(a: Seq<u8>, cursor: int, b: Seq<u8>, shift: int)
    requires
        0 <= cursor < a.len(),
        0 <= cursor + shift,
        a.len() + shift == b.len(),
        forall|i: int| cursor <= i < a.len() ==> #[trigger] a[i] == b[i + shift],
        header_step(a, cursor) is End,
    ensures
        header_step(b, cursor + shift) is End,
{
    text::lemma_scan(a, cursor, ByteClass::NonSpace);
    let start = text::scan(a, cursor, ByteClass::NonSpace);
    lemma_instruction_end();
    assert(start + 2 <= a.len());
    lemma_scan_moves(a, b, cursor, a.len() as int, shift, ByteClass::NonSpace);
    assert(a.subrange(start, start + 2) =~= b.subrange(start + shift, start + shift + 2));
}

/// What is left of an instruction has nothing more to drop.
proof fn lemma_kept_again(b: Seq<u8>, cursor: int, names: Seq<Seq<u8>>, before: Seq<u8>)
    requires
        0 <= cursor,
    ensures
        kept_from(b, cursor, names) matches Some(kept) ==> kept_from(
            before + kept,
            before.len() as int,
            names,
        ) == Some(kept),
    decreases b.len() - cursor,
{
    if cursor < b.len() {
        if let Some(kept) = kept_from(b, cursor, names) {
            lemma_header_step(b, cursor);
            let all = before + kept;
            let shift = before.len() - cursor;
            match header_step(b, cursor) {
                HeaderStep::End => {
                    assert forall|i: int| cursor <= i < b.len() implies #[trigger] b[i] == all[i
                        + shift] by {
                        assert(all[i + shift] == kept[i - cursor]);
                    }
                    lemma_end_moves(b, cursor, all, shift);
                    assert(all.subrange(before.len() as int, all.len() as int) =~= kept);
                },
                HeaderStep::Malformed => {},
                HeaderStep::Attribute(name, _, next) => {
                    let rest = kept_from(b, next, names)->Some_0;
                    if names.contains(name) {
                        lemma_kept_again(b, next, names, before);
                    } else {
                        let piece = b.subrange(cursor, next);
                        lemma_kept_again(b, next, names, before + piece);
                        assert(all =~= (before + piece) + rest);
                        assert forall|i: int| cursor <= i < next implies #[trigger] b[i] == all[i
                            + shift] by {
                            assert(all[i + shift] == piece[i - cursor]);
                        }
                        lemma_attribute_moves(b, cursor, all, shift);
                        assert(all.subrange(before.len() as int, next + shift) =~= piece);
                    }
                },
            }
        }
    } else {
        assert(before + Seq::<u8>::empty() =~= before);
    }
}

/// An instruction whose named attributes were dropped has none of them left to drop.
pub proof fn law_dropped_attributes_are_gone(b: Seq<u8>, names: Seq<Seq<u8>>)
    ensures
        without_attributes(b, names) matches Some(reduced) ==> without_attributes(
            reduced,
            names,
        ) is None,
{
    let opening = encode_utf8("<?xpacket"@).len() as int;
    if let Some(kept) = kept_from(b, opening, names) {
        if opening + kept.len() < b.len() {
            lemma_kept_again(b, opening, names, b.subrange(0, opening));
        }
    }
}

} // verus!
