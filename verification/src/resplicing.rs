//! Replacing the content of a packet: its envelope stays as it is.

use vstd::prelude::*;
use vstd::string::*;
use vstd::utf8::*;

use crate::encoding;
use crate::encoding::XmpEncoding;
use crate::error::ErrorView;
use crate::packet;
use crate::packet::{DecodedView, PacketView, SplitPacket};
use crate::rescanning;
use crate::text;

verus! {

/// Whether a packet shows its encoding after its content was replaced: it has an opening
/// instruction or a byte-order mark to show it, or is not in UTF-16.
pub open spec fn shows_encoding(d: DecodedView) -> bool {
    ||| d.envelope.header is Some
    ||| d.had_bom
    ||| !(d.encoding is Utf16Be || d.encoding is Utf16Le)
}

/// Whether a text can stand for the content of a packet: one element, as far as a scan can tell.
pub open spec fn is_content(body: Seq<char>) -> bool {
    &&& rescanning::no_instruction(body)
    &&& body.len() > 1
    &&& body[0] == '<'
    &&& body[1] != '\0'
    &&& body.last() == '>'
}

/// A search in the second part of some bytes finds what a search in that part alone finds.
pub proof fn lemma_find_shift(a: Seq<u8>, t: Seq<u8>, needle: Seq<u8>)
    ensures
        text::find_from(a + t, needle, a.len() as int) == (match text::find_from(t, needle, 0) {
            Some(e) => Some(a.len() + e),
            None => None,
        }),
{
    let b = a + t;
    let n = a.len() as int;
    text::lemma_find_from(t, needle, 0);
    text::lemma_find_from(b, needle, n);
    assert forall|j: int| 0 <= j implies #[trigger] text::occurs_at(b, needle, n + j)
        == text::occurs_at(t, needle, j) by {
        if j + needle.len() <= t.len() {
            assert(b.subrange(n + j, n + j + needle.len()) =~= t.subrange(j, j + needle.len()));
        }
    }
    match text::find_from(b, needle, n) {
        Some(i) => {
            assert(text::occurs_at(b, needle, n + (i - n)) == text::occurs_at(t, needle, i - n));
            if let Some(e) = text::find_from(t, needle, 0) {
                assert(text::occurs_at(b, needle, n + e));
            }
        },
        None => {
            if let Some(e) = text::find_from(t, needle, 0) {
                assert(text::occurs_at(b, needle, n + e));
            }
        },
    }
}

/// A search that ends in the first part of some bytes finds the same in that part alone.
pub proof fn lemma_find_prefix(a: Seq<u8>, t: Seq<u8>, needle: Seq<u8>, from: int, at: int)
    requires
        0 <= from,
        text::find_from(a + t, needle, from) == Some(at),
        at + needle.len() <= a.len(),
    ensures
        text::find_from(a, needle, from) == Some(at),
{
    let b = a + t;
    text::lemma_find_from(b, needle, from);
    text::lemma_find_from(a, needle, from);
    assert forall|j: int| 0 <= j && j + needle.len() <= a.len() implies #[trigger] text::occurs_at(
        a,
        needle,
        j,
    ) == text::occurs_at(b, needle, j) by {
        assert(a.subrange(j, j + needle.len()) =~= b.subrange(j, j + needle.len()));
    }
    assert(text::occurs_at(a, needle, at));
}

/// The last byte of a text that does not end in white space is no white space.
proof fn lemma_last_byte(body: Seq<char>)
    requires
        body.len() > 0,
        !text::is_white_char(body.last()),
    ensures
        encode_utf8(body).len() > 0,
        !text::is_space_byte(encode_utf8(body).last()),
{
    let b = encode_utf8(body);
    text::lemma_text_bytes(body);
    if b.len() == 0 {
        assert(b =~= Seq::<u8>::empty());
        assert(decode_utf8(b).len() == 0);
    } else if text::is_space_byte(b.last()) {
        let j = b.len() - 1;
        rescanning::lemma_ascii_split(body, j);
        assert(b.subrange(j + 1, b.len() as int) =~= Seq::<u8>::empty());
        assert(decode_utf8(Seq::<u8>::empty()).len() == 0);
        assert(body.last() == b[j] as char);
    }
}

/// The white space at the end of bytes does not depend on what stands before other bytes.
proof fn lemma_trailing(a: Seq<u8>, w: Seq<u8>, end: int)
    requires
        a.len() > 0,
        !text::is_space_byte(a.last()),
        0 <= end <= w.len(),
    ensures
        text::space_trimmed_end(a + w, a.len() + end) == a.len() + text::space_trimmed_end(w, end),
    decreases end,
{
    if end > 0 && text::is_space_byte(w[end - 1]) {
        lemma_trailing(a, w, end - 1);
    } else if end > 0 {
        assert((a + w)[a.len() + end - 1] == w[end - 1]);
    } else {
        assert((a + w)[a.len() - 1] == a.last());
    }
}

/// White space and the rest of a text, as trimming takes it apart.
proof fn lemma_taken_apart(exact: Seq<char>)
    requires
        text::trimmed_text(exact).len() > 0,
    ensures
        ({
            let k = text::skip_white(exact, 0);
            let body = text::trimmed_text(exact);
            let lead = exact.take(k);
            let tail = exact.skip(k + body.len());
            &&& 0 <= k <= exact.len()
            &&& exact == lead + body + tail
            &&& !text::is_white_char(body[0])
            &&& !text::is_white_char(body.last())
            &&& forall|i: int| 0 <= i < lead.len() ==> text::is_white_char(#[trigger] lead[i])
            &&& forall|i: int| 0 <= i < tail.len() ==> text::is_white_char(#[trigger] tail[i])
        }),
{
    let k = text::skip_white(exact, 0);
    let body = text::trimmed_text(exact);
    text::lemma_trim_bounds(exact, 0, exact.len() as int);
    text::lemma_trim_bounds(exact, k, exact.len() as int);
    lemma_skipped(exact, 0);
    lemma_left(exact, k, exact.len() as int);
    assert(exact =~= exact.take(k) + body + exact.skip(k + body.len()));
}

proof fn lemma_skipped(chars: Seq<char>, from: int)
    requires
        0 <= from <= chars.len(),
    ensures
        from <= text::skip_white(chars, from) <= chars.len(),
        forall|i: int|
            from <= i < text::skip_white(chars, from) ==> text::is_white_char(#[trigger] chars[i]),
        text::skip_white(chars, from) < chars.len() ==> !text::is_white_char(
            chars[text::skip_white(chars, from)],
        ),
    decreases chars.len() - from,
{
    if from < chars.len() && text::is_white_char(chars[from]) {
        lemma_skipped(chars, from + 1);
    }
}

proof fn lemma_left(chars: Seq<char>, start: int, end: int)
    requires
        0 <= start <= end <= chars.len(),
    ensures
        start <= text::white_trimmed_end(chars, start, end) <= end,
        forall|i: int|
            text::white_trimmed_end(chars, start, end) <= i < end ==> text::is_white_char(
                #[trigger] chars[i],
            ),
        text::white_trimmed_end(chars, start, end) > start ==> !text::is_white_char(
            chars[text::white_trimmed_end(chars, start, end) - 1],
        ),
    decreases end,
{
    if start < end && text::is_white_char(chars[end - 1]) {
        lemma_left(chars, start, end - 1);
    }
}

/// White space holds no instruction.
proof fn lemma_white(chars: Seq<char>)
    requires
        forall|i: int| 0 <= i < chars.len() ==> text::is_white_char(#[trigger] chars[i]),
    ensures
        rescanning::no_instruction(chars),
{
    assert forall|i: int| 0 <= i < chars.len() && #[trigger] chars[i] == '<' implies i + 1
        < chars.len() && chars[i + 1] != '?' by {
        assert(text::is_white_char(chars[i]));
    }
}

/// The bytes of a packet in order: what stands before its body, the white space before the content,
/// the content, the white space after it, and what stands after the body.
pub struct Parts {
    /// What stands before the body.
    pub head: Seq<u8>,
    /// White space before the content.
    pub lead: Seq<char>,
    /// The content.
    pub content: Seq<char>,
    /// White space after the content.
    pub tail: Seq<char>,
    /// What stands after the body.
    pub foot: Seq<u8>,
}

/// The parts of a packet.
pub open spec fn parts_of(d: DecodedView) -> Parts {
    let b = d.bytes();
    let body = d.envelope.body;
    let exact = decode_utf8(packet::span_bytes(b, body));
    let k = text::skip_white(exact, 0);
    Parts {
        head: b.subrange(0, body.start as int),
        lead: exact.take(k),
        content: d.packet.body,
        tail: exact.skip(k + d.packet.body.len()),
        foot: b.subrange(body.end as int, b.len() as int),
    }
}

/// The bytes between head and foot of a packet with the given content.
spec fn middle(p: Parts, content: Seq<char>) -> Seq<u8> {
    encode_utf8(p.lead) + encode_utf8(content) + encode_utf8(p.tail)
}

/// A packet is made of its parts.
proof fn lemma_parts(bytes: Seq<u8>)
    requires
        packet::scanned(bytes) matches Ok(d) && d.bytes().len() <= usize::MAX && d.packet.body.len()
            > 0,
    ensures
        ({
            let d = packet::scanned(bytes)->Ok_0;
            let p = parts_of(d);
            let start = d.envelope.content.start as int;
            let end = d.envelope.content.end as int;
            let b = d.bytes();
            &&& b == p.head + middle(p, p.content) + p.foot
            &&& start == p.head.len() + encode_utf8(p.lead).len()
            &&& end == start + encode_utf8(p.content).len()
            &&& b.subrange(0, start) == p.head + encode_utf8(p.lead)
            &&& b.subrange(end, b.len() as int) == encode_utf8(p.tail) + p.foot
            &&& valid_utf8(p.head)
            &&& valid_utf8(p.foot)
            &&& forall|i: int| 0 <= i < p.lead.len() ==> text::is_white_char(#[trigger] p.lead[i])
            &&& forall|i: int| 0 <= i < p.tail.len() ==> text::is_white_char(#[trigger] p.tail[i])
            &&& !text::is_white_char(p.content.last())
            &&& packet::span_bytes(b, d.envelope.body) == middle(p, p.content)
        }),
{
    let d = packet::scanned(bytes)->Ok_0;
    let b = d.bytes();
    let p = parts_of(d);
    let body = d.envelope.body;
    let exact_bytes = packet::span_bytes(b, body);
    let exact = decode_utf8(exact_bytes);
    packet::law_scanned_spans_slice_the_text(bytes);
    text::lemma_text_bytes(d.decoded);
    text::lemma_boundary_within(b, body.start as int, body.start as int, body.end as int);
    valid_utf8_split(b, body.start as int);
    valid_utf8_split(b, body.end as int);
    decode_utf8_encode_utf8(exact_bytes);
    lemma_taken_apart(exact);
    text::lemma_encode_concat(p.lead + p.content, p.tail);
    text::lemma_encode_concat(p.lead, p.content);
    assert(exact_bytes == middle(p, p.content));
    assert(b =~= p.head + exact_bytes + p.foot);
    let start = d.envelope.content.start as int;
    let end = d.envelope.content.end as int;
    assert(b.subrange(0, start) =~= p.head + encode_utf8(p.lead));
    assert(b.subrange(end, b.len() as int) =~= encode_utf8(p.tail) + p.foot);
}

/// The opening instruction of a packet stands before its body and ends there.
#[verifier::spinoff_prover]
#[verifier::rlimit(60)]
proof fn lemma_head(bytes: Seq<u8>)
    requires
        packet::scanned(bytes) matches Ok(d) && d.bytes().len() <= usize::MAX && d.packet.body.len()
            > 0 && d.envelope.header is Some,
    ensures
        ({
            let d = packet::scanned(bytes)->Ok_0;
            let head = parts_of(d).head;
            let header = d.envelope.header->Some_0;
            &&& text::find_from(head, encode_utf8("<?xpacket"@), 0) == Some(header.start as int)
            &&& text::find_from(head, encode_utf8("?>"@), header.start as int) == Some(
                head.len() - 2,
            )
            &&& header.end == head.len()
            &&& header.start + 9 <= head.len()
            &&& text::find_from(d.bytes(), encode_utf8("<?xpacket"@), 0) == Some(
                header.start as int,
            )
            &&& text::find_from(d.bytes(), encode_utf8("?>"@), header.start as int) == Some(
                head.len() - 2,
            )
        }),
{
    let d = packet::scanned(bytes)->Ok_0;
    let b = d.bytes();
    let p = parts_of(d);
    let before = middle(p, p.content);
    let opening = encode_utf8("<?xpacket"@);
    let closing = encode_utf8("?>"@);
    lemma_parts(bytes);
    rescanning::lemma_marks();
    let header = text::find_from(b, opening, 0)->Some_0;
    let close = text::find_from(b, closing, header)->Some_0;
    text::lemma_find_from(b, opening, 0);
    text::lemma_find_from(b, closing, header);
    assert(p.head.len() == close + 2);
    assert(header + 9 <= close) by {
        let mark = b.subrange(header, header + 9);
        let end = b.subrange(close, close + 2);
        assert(end[0] == b[close] && end[1] == b[close + 1]);
        if close < header + 9 {
            assert(mark[close - header] == b[close]);
            assert(close == header + 1);
            assert(mark[2] == b[close + 1]);
        }
    }
    assert(b =~= p.head + (before + p.foot));
    lemma_find_prefix(p.head, before + p.foot, opening, 0, header);
    lemma_find_prefix(p.head, before + p.foot, closing, header, close);
}

/// The end of the closing instruction in what stands after the body.
spec fn foot_end(foot: Seq<u8>) -> int {
    match text::find_from(foot, encode_utf8("?>"@), 0) {
        Some(e) => e + 2,
        None => foot.len() as int,
    }
}

/// The closing instruction of a packet stands after its body and begins there.
proof fn lemma_foot(bytes: Seq<u8>)
    requires
        packet::scanned(bytes) matches Ok(d) && d.bytes().len() <= usize::MAX && d.packet.body.len()
            > 0 && d.envelope.header is Some,
    ensures
        ({
            let d = packet::scanned(bytes)->Ok_0;
            let p = parts_of(d);
            let start = p.head.len() + middle(p, p.content).len();
            let end = foot_end(p.foot);
            &&& p.foot.len() == 0 || text::occurs_at(p.foot, encode_utf8("<?xpacket"@), 0)
            &&& 0 <= end <= p.foot.len()
            &&& d.envelope.trailer == (if p.foot.len() == 0 {
                None
            } else {
                Some(packet::span(start as int, start + end))
            })
            &&& d.packet.writable == (p.foot.len() > 0 && packet::asks_writable(
                p.foot.subrange(0, end),
            ))
        }),
{
    let d = packet::scanned(bytes)->Ok_0;
    let b = d.bytes();
    let p = parts_of(d);
    let front = p.head + middle(p, p.content);
    let opening = encode_utf8("<?xpacket"@);
    let closing = encode_utf8("?>"@);
    lemma_parts(bytes);
    lemma_head(bytes);
    rescanning::lemma_marks();
    let close = p.head.len() - 2;
    text::lemma_find_from(b, opening, close + 2);
    text::lemma_find_from(p.foot, closing, 0);
    match text::find_from(b, opening, close + 2) {
        Some(trailer) => {
            assert(front.len() == trailer);
            assert(p.foot.subrange(0, 9) =~= b.subrange(trailer, trailer + 9));
            assert(b =~= front + p.foot);
            lemma_find_shift(front, p.foot, closing);
            let end = foot_end(p.foot);
            assert(b.subrange(trailer, trailer + end) =~= p.foot.subrange(0, end));
        },
        None => {
            assert(p.foot.len() == 0);
        },
    }
}

/// Content between white space holds no instruction.
proof fn lemma_middle(p: Parts, content: Seq<char>, j: int)
    requires
        is_content(content),
        forall|i: int| 0 <= i < p.lead.len() ==> text::is_white_char(#[trigger] p.lead[i]),
        forall|i: int| 0 <= i < p.tail.len() ==> text::is_white_char(#[trigger] p.tail[i]),
        0 <= j < middle(p, content).len() - 1,
    ensures
        !(middle(p, content)[j] == 0x3C && middle(p, content)[j + 1] == 0x3F),
{
    let whole = p.lead + content + p.tail;
    text::lemma_encode_concat(p.lead + content, p.tail);
    text::lemma_encode_concat(p.lead, content);
    lemma_white(p.lead);
    lemma_white(p.tail);
    rescanning::lemma_no_instruction_join(p.lead, content);
    rescanning::lemma_no_instruction_join(p.lead + content, p.tail);
    rescanning::lemma_no_instruction_bytes(whole, j);
}

/// A packet with an opening instruction and another content splits as it did before.
proof fn lemma_split_again(bytes: Seq<u8>, content: Seq<char>)
    requires
        packet::scanned(bytes) matches Ok(d) && d.bytes().len() <= usize::MAX && d.packet.body.len()
            > 0 && d.envelope.header is Some,
        is_content(content),
    ensures
        ({
            let d = packet::scanned(bytes)->Ok_0;
            let p = parts_of(d);
            let m = middle(p, content);
            let by = m.len() - middle(p, p.content).len();
            packet::split(p.head + m + p.foot) == Ok::<SplitPacket, ErrorView>(
                SplitPacket {
                    header: d.envelope.header,
                    body: packet::span(p.head.len() as int, (p.head.len() + m.len()) as int),
                    trailer: match d.envelope.trailer {
                        Some(t) => Some(packet::span(t.start + by, t.end + by)),
                        None => None,
                    },
                    writable: d.packet.writable,
                },
            )
        }),
{
    let d = packet::scanned(bytes)->Ok_0;
    let p = parts_of(d);
    let m = middle(p, content);
    lemma_parts(bytes);
    lemma_head(bytes);
    lemma_foot(bytes);
    assert forall|j: int| 0 <= j < m.len() - 1 implies !(#[trigger] m[j] == 0x3C && m[j + 1]
        == 0x3F) by {
        lemma_middle(p, content, j);
    }
    rescanning::lemma_resplit(
        p.head,
        m,
        p.foot,
        d.envelope.header->Some_0.start as int,
    );
}

/// The text of a packet with the given content.
pub open spec fn text_with(p: Parts, content: Seq<char>) -> Seq<char> {
    decode_utf8(p.head) + p.lead + content + p.tail + decode_utf8(p.foot)
}

/// The bytes of the text of a packet with the given content.
proof fn lemma_text_with(p: Parts, content: Seq<char>)
    requires
        valid_utf8(p.head),
        valid_utf8(p.foot),
    ensures
        encode_utf8(text_with(p, content)) == p.head + middle(p, content) + p.foot,
        decode_utf8(p.head + middle(p, content) + p.foot) == text_with(p, content),
{
    let head = decode_utf8(p.head);
    let foot = decode_utf8(p.foot);
    decode_utf8_encode_utf8(p.head);
    decode_utf8_encode_utf8(p.foot);
    text::lemma_encode_concat(head + p.lead + content + p.tail, foot);
    text::lemma_encode_concat(head + p.lead + content, p.tail);
    text::lemma_encode_concat(head + p.lead, content);
    text::lemma_encode_concat(head, p.lead);
    text::lemma_text_bytes(text_with(p, content));
    assert(encode_utf8(text_with(p, content)) =~= p.head + middle(p, content) + p.foot);
}

/// What stands before the body of a packet with an opening instruction holds the mark of one.
pub proof fn lemma_long_head(head: Seq<u8>, at: int)
    requires
        valid_utf8(head),
        text::occurs_at(head, encode_utf8("<?xpacket"@), at),
    ensures
        decode_utf8(head).len() >= 9,
{
    let mark = encode_utf8("<?xpacket"@);
    rescanning::lemma_marks();
    text::lemma_ascii_occurrence(head, mark, at);
    valid_utf8_split(head, at);
    valid_utf8_split(head, at + 9);
    let a = head.subrange(0, at);
    let c = head.subrange(at + 9, head.len() as int);
    reveal_strlit("<?xpacket");
    text::lemma_text_bytes("<?xpacket"@);
    text::lemma_decode_concat(a, mark);
    text::lemma_decode_concat(a + mark, c);
    assert(head =~= a + mark + c);
    assert("<?xpacket"@.len() == 9);
}

/// A packet shows its encoding after its content was replaced.
proof fn lemma_shows_encoding(bytes: Seq<u8>, content: Seq<char>)
    requires
        packet::scanned(bytes) matches Ok(d) && d.bytes().len() <= usize::MAX && d.packet.body.len()
            > 0 && shows_encoding(d),
        is_content(content),
    ensures
        ({
            let d = packet::scanned(bytes)->Ok_0;
            encoding::self_describing(text_with(parts_of(d), content), d.encoding, d.had_bom)
        }),
{
    let d = packet::scanned(bytes)->Ok_0;
    let p = parts_of(d);
    let before = text_with(p, p.content);
    let after = text_with(p, content);
    lemma_parts(bytes);
    lemma_text_with(p, p.content);
    text::lemma_text_bytes(d.decoded);
    assert(d.decoded == before);
    encoding::law_bytes_survive_decoding(bytes);
    encoding::law_packet_round_trip(d.decoded, d.encoding, d.had_bom);
    assert(encoding::self_describing(before, d.encoding, d.had_bom));
    if d.envelope.header is Some {
        lemma_head(bytes);
        text::lemma_find_from(p.head, encode_utf8("<?xpacket"@), 0);
        lemma_long_head(p.head, d.envelope.header->Some_0.start as int);
        let head = decode_utf8(p.head);
        assert(before[0] == head[0] && after[0] == head[0]);
        assert(before[1] == head[1] && after[1] == head[1]);
        assert(before[2] == head[2] && after[2] == head[2]);
        assert(before[3] == head[3] && after[3] == head[3]);
    } else {
        assert(p.head =~= Seq::<u8>::empty());
        assert(decode_utf8(p.head).len() == 0);
        if p.lead.len() > 0 {
            assert(before[0] == p.lead[0] && after[0] == p.lead[0]);
            assert(text::is_white_char(p.lead[0]));
        } else {
            assert(after[0] == content[0] && after[1] == content[1]);
        }
    }
}

/// Replacing the content of a packet keeps its encoding, its byte-order mark, its instructions, its
/// writability and its padding: only the content region is rewritten. The one case left out is a
/// packet in UTF-16 that has neither a mark nor instructions to show its encoding.
pub proof fn law_replacing_content_keeps_the_envelope(bytes: Seq<u8>, content: Seq<char>)
    requires
        packet::scanned(bytes) matches Ok(d) && d.bytes().len() <= usize::MAX && d.packet.body.len()
            > 0 && shows_encoding(d),
        is_content(content),
        encode_utf8(text_with(parts_of(packet::scanned(bytes)->Ok_0), content)).len() <= usize::MAX,
    ensures
        ({
            let d = packet::scanned(bytes)->Ok_0;
            let start = d.envelope.content.start as int;
            let end = d.envelope.content.end as int;
            let b = d.bytes();
            let new = encode_utf8(content);
            let by = new.len() - (end - start);
            &&& packet::scanned(d.respliced(start, end, new)) matches Ok(e)
            &&& e.encoding == d.encoding
            &&& e.had_bom == d.had_bom
            &&& e.packet == (PacketView { body: content, ..d.packet })
            &&& e.bytes() == b.subrange(0, start) + new + b.subrange(end, b.len() as int)
            &&& e.envelope.header == d.envelope.header
            &&& e.envelope.content == packet::span(start, start + new.len())
            &&& e.envelope.trailer == (match d.envelope.trailer {
                Some(t) => Some(packet::span(t.start + by, t.end + by)),
                None => None,
            })
            &&& decode_utf8(packet::span_bytes(e.bytes(), e.envelope.content)) == content
        }),
{
    let d = packet::scanned(bytes)->Ok_0;
    let p = parts_of(d);
    let start = d.envelope.content.start as int;
    let end = d.envelope.content.end as int;
    let b = d.bytes();
    let new = encode_utf8(content);
    let m = middle(p, content);
    let whole = text_with(p, content);
    let after = p.head + m + p.foot;
    lemma_parts(bytes);
    lemma_text_with(p, content);
    assert(b.subrange(0, start) + new + b.subrange(end, b.len() as int) =~= after);
    let n = d.respliced(start, end, new);
    assert(n == encoding::encoded_packet(whole, d.encoding, d.had_bom));
    lemma_shows_encoding(bytes, content);
    encoding::law_packet_round_trip(whole, d.encoding, d.had_bom);
    lemma_enclosed_again(bytes, content);
}

/// What a scan makes of a packet with another content.
proof fn lemma_enclosed_again(bytes: Seq<u8>, content: Seq<char>)
    requires
        packet::scanned(bytes) matches Ok(d) && d.bytes().len() <= usize::MAX && d.packet.body.len()
            > 0,
        is_content(content),
        encode_utf8(text_with(parts_of(packet::scanned(bytes)->Ok_0), content)).len() <= usize::MAX,
    ensures
        ({
            let d = packet::scanned(bytes)->Ok_0;
            let p = parts_of(d);
            let whole = text_with(p, content);
            let start = d.envelope.content.start as int;
            let end = d.envelope.content.end as int;
            let new = encode_utf8(content);
            let by = new.len() - (end - start);
            &&& packet::split(encode_utf8(whole)) matches Ok(s)
            &&& {
                let e = packet::enclosed(d.encoding, d.had_bom, whole, s);
                &&& e.packet == (PacketView { body: content, ..d.packet })
                &&& e.envelope.header == d.envelope.header
                &&& e.envelope.content == packet::span(start, start + new.len())
                &&& e.envelope.trailer == (match d.envelope.trailer {
                    Some(t) => Some(packet::span(t.start + by, t.end + by)),
                    None => None,
                })
                &&& decode_utf8(packet::span_bytes(e.bytes(), e.envelope.content)) == content
            }
        }),
{
    let d = packet::scanned(bytes)->Ok_0;
    let p = parts_of(d);
    let whole = text_with(p, content);
    lemma_parts(bytes);
    lemma_text_with(p, content);
    lemma_text_with(p, p.content);
    if d.envelope.header is Some {
        lemma_split_again(bytes, content);
        lemma_padding_again(p, content);
    } else {
        lemma_bare_again(bytes, content);
    }
    let s = packet::split(encode_utf8(whole))->Ok_0;
    lemma_enclosed_with(d.encoding, d.had_bom, p, content, s);
    lemma_padding_before(bytes);
}

/// The padding of a packet with an opening instruction.
proof fn lemma_padding_before(bytes: Seq<u8>)
    requires
        packet::scanned(bytes) matches Ok(d) && d.bytes().len() <= usize::MAX && d.packet.body.len()
            > 0,
    ensures
        ({
            let d = packet::scanned(bytes)->Ok_0;
            let m = middle(parts_of(d), d.packet.body);
            d.envelope.header is Some ==> d.packet.padding == (m.len() - text::space_trimmed_end(
                m,
                m.len() as int,
            )) as usize
        }),
{
    lemma_parts(bytes);
}

/// What a scan makes of parts that were put together.
proof fn lemma_enclosed_with(
    encoding: XmpEncoding,
    had_bom: bool,
    p: Parts,
    content: Seq<char>,
    s: SplitPacket,
)
    requires
        is_content(content),
        valid_utf8(p.head),
        valid_utf8(p.foot),
        forall|i: int| 0 <= i < p.lead.len() ==> text::is_white_char(#[trigger] p.lead[i]),
        forall|i: int| 0 <= i < p.tail.len() ==> text::is_white_char(#[trigger] p.tail[i]),
        encode_utf8(text_with(p, content)).len() <= usize::MAX,
        s.body == packet::span(
            p.head.len() as int,
            (p.head.len() + middle(p, content).len()) as int,
        ),
    ensures
        ({
            let e = packet::enclosed(encoding, had_bom, text_with(p, content), s);
            let m = middle(p, content);
            let start = (p.head.len() + encode_utf8(p.lead).len()) as int;
            &&& e.packet.body == content
            &&& e.packet.padding == (if s.header is None {
                0usize
            } else {
                (m.len() - text::space_trimmed_end(m, m.len() as int)) as usize
            })
            &&& e.envelope.content == packet::span(start, start + encode_utf8(content).len())
            &&& decode_utf8(packet::span_bytes(e.bytes(), e.envelope.content)) == content
        }),
{
    let m = middle(p, content);
    let after = p.head + m + p.foot;
    let new = encode_utf8(content);
    let exact = p.lead + content + p.tail;
    let start = (p.head.len() + encode_utf8(p.lead).len()) as int;
    lemma_text_with(p, content);
    text::lemma_text_bytes(content);
    text::lemma_text_bytes(exact);
    text::lemma_encode_concat(p.lead + content, p.tail);
    text::lemma_encode_concat(p.lead, content);
    rescanning::lemma_trimmed(p.lead, content, p.tail);
    assert(exact.take(p.lead.len() as int) =~= p.lead);
    assert(packet::span_bytes(after, s.body) =~= m);
    assert(packet::span_bytes(after, packet::span(start, start + new.len())) =~= new);
}

/// The padding of a packet is the same with another content.
proof fn lemma_padding_again(p: Parts, content: Seq<char>)
    requires
        is_content(content),
        p.content.len() > 0,
        !text::is_white_char(p.content.last()),
    ensures
        middle(p, content).len() - text::space_trimmed_end(
            middle(p, content),
            middle(p, content).len() as int,
        ) == middle(p, p.content).len() - text::space_trimmed_end(
            middle(p, p.content),
            middle(p, p.content).len() as int,
        ),
{
    let w = encode_utf8(p.tail);
    let a = encode_utf8(p.lead) + encode_utf8(content);
    let c = encode_utf8(p.lead) + encode_utf8(p.content);
    lemma_last_byte(content);
    lemma_last_byte(p.content);
    assert(a.last() == encode_utf8(content).last());
    assert(c.last() == encode_utf8(p.content).last());
    lemma_trailing(a, w, w.len() as int);
    lemma_trailing(c, w, w.len() as int);
}

/// A packet without instructions splits into nothing but its body with another content too.
proof fn lemma_bare_again(bytes: Seq<u8>, content: Seq<char>)
    requires
        packet::scanned(bytes) matches Ok(d) && d.bytes().len() <= usize::MAX && d.packet.body.len()
            > 0 && d.envelope.header is None,
        is_content(content),
    ensures
        ({
            let d = packet::scanned(bytes)->Ok_0;
            let p = parts_of(d);
            let m = middle(p, content);
            let after = p.head + m + p.foot;
            &&& p.head.len() == 0
            &&& p.foot.len() == 0
            &&& d.envelope.trailer is None
            &&& d.packet.padding == 0
            &&& packet::split(after) == Ok::<SplitPacket, ErrorView>(
                SplitPacket {
                    header: None,
                    body: packet::span(0, after.len() as int),
                    trailer: None,
                    writable: d.packet.writable,
                },
            )
        }),
{
    let d = packet::scanned(bytes)->Ok_0;
    let p = parts_of(d);
    let m = middle(p, content);
    let after = p.head + m + p.foot;
    let opening = encode_utf8("<?xpacket"@);
    lemma_parts(bytes);
    packet::law_scanned_spans_slice_the_text(bytes);
    rescanning::lemma_marks();
    assert(after =~= m);
    text::lemma_find_from(after, opening, 0);
    if let Some(j) = text::find_from(after, opening, 0) {
        let part = after.subrange(j, j + 9);
        assert(part[0] == after[j] && part[1] == after[j + 1]);
        lemma_middle(p, content, j);
    }
}

/// The bytes before and after the part of the text of a packet from byte `start` to byte `end`, in
/// the encoding of the packet. The byte-order mark belongs to what stands before.
pub open spec fn bytes_around(d: DecodedView, start: int, end: int) -> (Seq<u8>, Seq<u8>) {
    let b = d.bytes();
    (
        encoding::encoded_packet(decode_utf8(b.subrange(0, start)), d.encoding, d.had_bom),
        encoding::encoded_text(d.encoding, decode_utf8(b.subrange(end, b.len() as int))),
    )
}

/// Replacing a part of the text of a packet keeps every byte outside that part.
pub proof fn law_replacing_a_part_keeps_the_other_bytes(
    bytes: Seq<u8>,
    start: int,
    end: int,
    replacement: Seq<u8>,
)
    requires
        packet::scanned(bytes) matches Ok(d) && 0 <= start <= end <= d.bytes().len()
            && is_char_boundary(d.bytes(), start) && is_char_boundary(d.bytes(), end),
        valid_utf8(replacement),
    ensures
        ({
            let d = packet::scanned(bytes)->Ok_0;
            let (before, after) = bytes_around(d, start, end);
            let part = decode_utf8(d.bytes().subrange(start, end));
            &&& bytes == before + encoding::encoded_text(d.encoding, part) + after
            &&& d.respliced(start, end, replacement) == before + encoding::encoded_text(
                d.encoding,
                decode_utf8(replacement),
            ) + after
        }),
{
    let d = packet::scanned(bytes)->Ok_0;
    let b = d.bytes();
    let a = b.subrange(0, start);
    let part = b.subrange(start, end);
    let c = b.subrange(end, b.len() as int);
    text::lemma_text_bytes(d.decoded);
    text::lemma_boundary_within(b, start, start, end);
    valid_utf8_split(b, start);
    valid_utf8_split(b, end);
    lemma_joined(d.encoding, d.had_bom, a, part, c);
    lemma_joined(d.encoding, d.had_bom, a, replacement, c);
    assert(b =~= a + part + c);
    encoding::law_bytes_survive_decoding(bytes);
}

/// Removing attributes of the opening instruction keeps every byte outside that instruction, and
/// keeps the packet as it is where there is no instruction or nothing in it to remove.
pub proof fn law_removing_header_attributes_keeps_the_rest(bytes: Seq<u8>, names: Seq<Seq<u8>>)
    requires
        packet::scanned(bytes) matches Ok(d) ==> d.bytes().len() <= usize::MAX,
    ensures
        match (packet::scanned(bytes), packet::header_reduced(bytes, names)) {
            (Err(e), out) => out == Err::<Seq<u8>, ErrorView>(e),
            (Ok(_), Err(_)) => false,
            (Ok(d), Ok(out)) => match d.envelope.header {
                None => out == bytes,
                Some(header) => {
                    let (before, after) = bytes_around(d, header.start as int, header.end as int);
                    let instruction = packet::span_bytes(d.bytes(), header);
                    match packet::without_attributes(instruction, names) {
                        None => out == bytes,
                        Some(reduced) => {
                            &&& bytes == before + encoding::encoded_text(
                                d.encoding,
                                decode_utf8(instruction),
                            ) + after
                            &&& out == before + encoding::encoded_text(
                                d.encoding,
                                decode_utf8(reduced),
                            ) + after
                        },
                    }
                },
            },
        },
{
    if let Ok(d) = packet::scanned(bytes) {
        packet::law_scanned_spans_slice_the_text(bytes);
        if let Some(header) = d.envelope.header {
            let instruction = packet::span_bytes(d.bytes(), header);
            if let Some(reduced) = packet::without_attributes(instruction, names) {
                let b = d.bytes();
                text::lemma_text_bytes(d.decoded);
                packet::lemma_header_opens(bytes);
                text::lemma_boundary_within(
                    b,
                    header.start as int,
                    header.start as int,
                    header.end as int,
                );
                packet::lemma_reduced_is_text(instruction, names);
                law_replacing_a_part_keeps_the_other_bytes(
                    bytes,
                    header.start as int,
                    header.end as int,
                    reduced,
                );
            }
        }
    }
}

/// The bytes of a packet whose text is in three parts.
proof fn lemma_joined(
    encoding: XmpEncoding,
    had_bom: bool,
    a: Seq<u8>,
    b: Seq<u8>,
    c: Seq<u8>,
)
    requires
        valid_utf8(a),
        valid_utf8(b),
        valid_utf8(c),
    ensures
        encoding::encoded_packet(decode_utf8(a + b + c), encoding, had_bom)
            == encoding::encoded_packet(decode_utf8(a), encoding, had_bom) + encoding::encoded_text(
            encoding,
            decode_utf8(b),
        ) + encoding::encoded_text(encoding, decode_utf8(c)),
{
    text::lemma_decode_concat(a, b);
    text::lemma_decode_concat(a + b, c);
    encoding::lemma_encoded_concat(encoding, decode_utf8(a) + decode_utf8(b), decode_utf8(c));
    encoding::lemma_encoded_concat(encoding, decode_utf8(a), decode_utf8(b));
    lemma_associates(
        encoding::byte_order_mark(encoding),
        encoding::encoded_text(encoding, decode_utf8(a)),
        encoding::encoded_text(encoding, decode_utf8(b)),
        encoding::encoded_text(encoding, decode_utf8(c)),
    );
}

proof fn lemma_associates(m: Seq<u8>, a: Seq<u8>, b: Seq<u8>, c: Seq<u8>)
    ensures
        m + (a + b + c) == (m + a) + b + c,
{
    assert(m + (a + b + c) =~= (m + a) + b + c);
}

} // verus!
