//! Scanning a packet again after a part of it was rewritten.

use vstd::prelude::*;
use vstd::string::*;
use vstd::utf8::*;

use crate::encoding;
use crate::error::ErrorView;
use crate::mending;
use crate::packet;
use crate::packet::{DecodedView, HeaderStep, SplitPacket};
use crate::repair;
use crate::repair::BodyRepair;
use crate::rescanning;
use crate::resplicing;
use crate::text;

verus! {

/// The text of a packet with a part of it replaced.
pub open spec fn rewritten_bytes(d: DecodedView, start: int, end: int, part: Seq<u8>) -> Seq<u8> {
    let b = d.bytes();
    b.subrange(0, start) + part + b.subrange(end, b.len() as int)
}

/// A packet with an opening instruction is read in its own encoding after something behind the mark
/// of the instruction was replaced.
proof fn lemma_reencoded(bytes: Seq<u8>, start: int, end: int, part: Seq<u8>)
    requires
        packet::scanned(bytes) matches Ok(d) && d.envelope.header matches Some(header)
            && header.start + 9 <= start <= end <= d.bytes().len() && text::occurs_at(
            d.bytes(),
            rescanning::mark(),
            header.start as int,
        ) && is_char_boundary(d.bytes(), start) && is_char_boundary(d.bytes(), end),
        valid_utf8(part),
    ensures
        ({
            let d = packet::scanned(bytes)->Ok_0;
            let b = rewritten_bytes(d, start, end, part);
            &&& encode_utf8(decode_utf8(b)) == b
            &&& packet::scanned(d.respliced(start, end, part)) == (match packet::split(b) {
                Err(e) => Err(e),
                Ok(s) => Ok(packet::enclosed(d.encoding, d.had_bom, decode_utf8(b), s)),
            })
        }),
{
    let d = packet::scanned(bytes)->Ok_0;
    let at = d.envelope.header->Some_0.start as int;
    let old_bytes = d.bytes();
    let b = rewritten_bytes(d, start, end, part);
    let front = old_bytes.subrange(0, start);
    let behind = old_bytes.subrange(start, old_bytes.len() as int);
    let last = old_bytes.subrange(end, old_bytes.len() as int);
    text::lemma_text_bytes(d.decoded);
    valid_utf8_split(old_bytes, start);
    valid_utf8_split(old_bytes, end);
    valid_utf8_concat(front, part);
    valid_utf8_concat(front + part, last);
    decode_utf8_encode_utf8(b);
    // The first characters are those of before.
    rescanning::lemma_marks();
    assert(front.subrange(at, at + 9) =~= old_bytes.subrange(at, at + 9));
    resplicing::lemma_long_head(front, at);
    assert(old_bytes =~= front + behind);
    text::lemma_decode_concat(front, behind);
    text::lemma_decode_concat(front + part, last);
    text::lemma_decode_concat(front, part);
    let before = d.decoded;
    let after = decode_utf8(b);
    let head = decode_utf8(front);
    assert(before == head + decode_utf8(behind));
    assert(after == head + decode_utf8(part) + decode_utf8(last));
    assert(before[0] == head[0] && after[0] == head[0]);
    assert(before[1] == head[1] && after[1] == head[1]);
    assert(before[2] == head[2] && after[2] == head[2]);
    assert(before[3] == head[3] && after[3] == head[3]);
    encoding::law_bytes_survive_decoding(bytes);
    encoding::law_packet_round_trip(before, d.encoding, d.had_bom);
    encoding::law_packet_round_trip(after, d.encoding, d.had_bom);
}

/// The place of the opening instruction of a packet.
proof fn lemma_opening(bytes: Seq<u8>)
    requires
        packet::scanned(bytes) matches Ok(d) && d.bytes().len() <= usize::MAX
            && d.envelope.header is Some,
    ensures
        ({
            let d = packet::scanned(bytes)->Ok_0;
            let b = d.bytes();
            let header = d.envelope.header->Some_0;
            let opening = header.start as int;
            let h = b.subrange(0, header.end as int);
            &&& d.well_formed()
            &&& opening + 9 <= header.end <= b.len()
            &&& text::occurs_at(b, rescanning::mark(), opening)
            &&& text::find_from(h, rescanning::mark(), 0) == Some(opening)
            &&& text::find_from(h, encode_utf8("?>"@), opening) == Some(h.len() - 2)
            &&& forall|j: int|
                0 <= j < opening ==> !#[trigger] text::occurs_at(b, rescanning::mark(), j)
        }),
{
    let d = packet::scanned(bytes)->Ok_0;
    let b = d.bytes();
    let mark = rescanning::mark();
    let closing = encode_utf8("?>"@);
    let header = d.envelope.header->Some_0;
    let opening = header.start as int;
    let start = header.end as int;
    let h = b.subrange(0, start);
    let rest = b.subrange(start, b.len() as int);
    packet::law_scanned_spans_slice_the_text(bytes);
    rescanning::lemma_marks();
    text::lemma_find_from(b, mark, 0);
    text::lemma_find_from(b, closing, opening);
    rescanning::lemma_mark_bytes(b, opening);
    let close = text::find_from(b, closing, opening)->Some_0;
    let pair = b.subrange(close, close + 2);
    assert(pair[0] == b[close] && pair[1] == b[close + 1]);
    if close < opening + 9 {
        assert(b[opening + (close - opening)] == mark[close - opening]);
        assert(close == opening + 1);
        assert(b[opening + 2] == mark[2]);
    }
    assert(b =~= h + rest);
    resplicing::lemma_find_prefix(h, rest, mark, 0, opening);
    resplicing::lemma_find_prefix(h, rest, closing, opening, close);
}

/// The end of the instruction that some bytes begin with.
spec fn instruction_end(t: Seq<u8>) -> int {
    match text::find_from(t, encode_utf8("?>"@), 0) {
        Some(e) => e + 2,
        None => t.len() as int,
    }
}

/// The place of the closing instruction of a packet with an opening one.
proof fn lemma_closing(bytes: Seq<u8>)
    requires
        packet::scanned(bytes) matches Ok(d) && d.bytes().len() <= usize::MAX
            && d.envelope.header is Some,
    ensures
        ({
            let d = packet::scanned(bytes)->Ok_0;
            let b = d.bytes();
            let start = d.envelope.header->Some_0.end as int;
            let end = d.envelope.body.end as int;
            let t = b.subrange(end, b.len() as int);
            &&& 0 <= start <= end <= b.len()
            &&& forall|j: int|
                start <= j < end ==> !#[trigger] text::occurs_at(b, rescanning::mark(), j)
            &&& t.len() == 0 || text::occurs_at(t, rescanning::mark(), 0)
            &&& t.len() == 0 <==> d.envelope.trailer is None
            &&& d.packet.writable == (t.len() > 0 && packet::asks_writable(
                t.subrange(0, instruction_end(t)),
            ))
        }),
{
    let d = packet::scanned(bytes)->Ok_0;
    let b = d.bytes();
    let mark = rescanning::mark();
    let closing = encode_utf8("?>"@);
    let start = d.envelope.header->Some_0.end as int;
    let end = d.envelope.body.end as int;
    let t = b.subrange(end, b.len() as int);
    packet::law_scanned_spans_slice_the_text(bytes);
    rescanning::lemma_marks();
    let opening = text::find_from(b, mark, 0)->Some_0;
    text::lemma_find_from(b, mark, 0);
    text::lemma_find_from(b, closing, opening);
    assert(text::find_from(b, closing, opening) == Some(start - 2));
    text::lemma_find_from(b, mark, start);
    if let Some(trailer) = d.envelope.trailer {
        let front = b.subrange(0, end);
        assert(b =~= front + t);
        resplicing::lemma_find_shift(front, t, closing);
        rescanning::lemma_mark_bytes(b, end);
        assert(t.subrange(0, 9) =~= b.subrange(end, end + 9));
        text::lemma_find_from(t, closing, 0);
        text::lemma_find_from(b, closing, end);
        assert(trailer.end == end + instruction_end(t));
        assert(b.subrange(end, trailer.end as int) =~= t.subrange(0, instruction_end(t)));
    }
}

/// A packet whose body was repaired scans to a packet in the same encoding, with the same
/// instructions and writability, around the repaired body. Where that has nothing left to repair,
/// the repair finds nothing.
pub proof fn law_repaired_packets_scan(bytes: Seq<u8>, repair: BodyRepair)
    requires
        packet::scanned(bytes) matches Ok(d) ==> d.bytes().len() <= usize::MAX,
    ensures
        repair::body_rewritten(bytes, repair) matches Ok(Some(out)) ==> (packet::scanned(
            bytes,
        ) matches Ok(d) && packet::scanned(out) matches Ok(e) && repair::repaired_by(
            repair,
            packet::span_bytes(d.bytes(), d.envelope.body),
        ) matches Some(repaired) && {
            &&& e.encoding == d.encoding
            &&& e.had_bom == d.had_bom
            &&& e.packet.writable == d.packet.writable
            &&& e.envelope.header == d.envelope.header
            &&& e.bytes().len() <= usize::MAX ==> {
                &&& packet::span_bytes(e.bytes(), e.envelope.body) == repaired
                &&& repair::repaired_by(repair, repaired) is None ==> repair::body_rewritten(
                    out,
                    repair,
                ) == Ok::<Option<Seq<u8>>, ErrorView>(None)
            }
        }),
{
    if let Ok(Some(out)) = repair::body_rewritten(bytes, repair) {
        let d = packet::scanned(bytes)->Ok_0;
        let b = d.bytes();
        let start = d.envelope.header->Some_0.end as int;
        let end = d.envelope.trailer->Some_0.start as int;
        let body = b.subrange(start, end);
        let repaired = repair::repaired_by(repair, body)->Some_0;
        lemma_opening(bytes);
        lemma_closing(bytes);
        mending::lemma_scanned_body(bytes);
        mending::lemma_repaired_body(body, repair);
        lemma_reencoded(bytes, start, end, repaired);
        let h = b.subrange(0, start);
        let t = b.subrange(end, b.len() as int);
        rescanning::lemma_unmarked_between(h, repaired, t);
        rescanning::lemma_resplit_parts(h, repaired, t, d.envelope.header->Some_0.start as int);
        let after = rewritten_bytes(d, start, end, repaired);
        assert(after == h + repaired + t);
        let s = packet::split(after)->Ok_0;
        let e = packet::scanned(out)->Ok_0;
        assert(e == packet::enclosed(d.encoding, d.had_bom, decode_utf8(after), s));
        if e.bytes().len() <= usize::MAX {
            assert(packet::span_bytes(after, s.body) =~= repaired);
        }
    }
}

/// Whether some bytes end with the mark that ends an instruction and hold no other.
#[verifier::opaque]
spec fn ends_once(b: Seq<u8>) -> bool {
    &&& b.len() >= 2
    &&& b[b.len() - 2] == 0x3F
    &&& b[b.len() - 1] == 0x3E
    &&& forall|j: int|
        0 <= j < b.len() - 2 ==> !(#[trigger] b[j] == 0x3F && b[j + 1] == 0x3E)
}

/// An occurrence of the mark that ends an instruction depends on its two bytes alone.
proof fn lemma_pair(b: Seq<u8>, j: int)
    requires
        0 <= j,
        j + 2 <= b.len(),
    ensures
        text::occurs_at(b, encode_utf8("?>"@), j) <==> b[j] == 0x3F && b[j + 1] == 0x3E,
{
    rescanning::lemma_marks();
    let part = b.subrange(j, j + 2);
    assert(part[0] == b[j] && part[1] == b[j + 1]);
    if b[j] == 0x3F && b[j + 1] == 0x3E {
        assert(part =~= encode_utf8("?>"@));
    }
}

/// What is left of an instruction ends it once.
proof fn lemma_kept_ends_once(b: Seq<u8>, cursor: int, names: Seq<Seq<u8>>)
    requires
        ends_once(b),
        0 <= cursor <= b.len() - 2,
    ensures
        packet::kept_from(b, cursor, names) matches Some(kept) ==> ends_once(kept),
    decreases b.len() - cursor,
{
    reveal(ends_once);
    packet::lemma_header_step(b, cursor);
    if let Some(kept) = packet::kept_from(b, cursor, names) {
        match packet::header_step(b, cursor) {
            HeaderStep::End => {
                text::lemma_scan(b, cursor, text::ByteClass::NonSpace);
                let start = text::scan(b, cursor, text::ByteClass::NonSpace);
                rescanning::lemma_marks();
                lemma_pair(b, start);
                assert(start == b.len() - 2);
            },
            HeaderStep::Malformed => {},
            HeaderStep::Attribute(name, _, next) => {
                lemma_attribute_end(b, cursor);
                lemma_kept_ends_once(b, next, names);
                if !names.contains(name) {
                    let piece = b.subrange(cursor, next);
                    let rest = packet::kept_from(b, next, names)->Some_0;
                    assert forall|j: int| 0 <= j < kept.len() - 2 implies !(#[trigger] kept[j]
                        == 0x3F && kept[j + 1] == 0x3E) by {
                        if j < piece.len() - 1 {
                            assert(kept[j] == b[cursor + j] && kept[j + 1] == b[cursor + j + 1]);
                        } else if j == piece.len() - 1 {
                            assert(kept[j] == b[next - 1]);
                        } else {
                            assert(kept[j] == rest[j - piece.len()]);
                            assert(kept[j + 1] == rest[j - piece.len() + 1]);
                        }
                    }
                }
            },
        }
    }
}

/// An attribute ends with a quote.
proof fn lemma_attribute_end(b: Seq<u8>, cursor: int)
    requires
        0 <= cursor <= b.len(),
    ensures
        packet::header_step(b, cursor) matches HeaderStep::Attribute(_, _, next) ==> cursor < next
            <= b.len() && (b[next - 1] == 0x27 || b[next - 1] == 0x22),
{
    packet::lemma_header_step(b, cursor);
    let start = text::scan(b, cursor, text::ByteClass::NonSpace);
    text::lemma_scan(b, cursor, text::ByteClass::NonSpace);
    let stop = text::scan(b, start, text::ByteClass::AttributeNameEnd);
    text::lemma_scan(b, start, text::ByteClass::AttributeNameEnd);
    let equals = text::scan(b, stop, text::ByteClass::NonSpace);
    text::lemma_scan(b, stop, text::ByteClass::NonSpace);
    if equals < b.len() {
        let open = text::scan(b, equals + 1, text::ByteClass::NonSpace);
        text::lemma_scan(b, equals + 1, text::ByteClass::NonSpace);
        if open < b.len() {
            text::lemma_scan(b, open + 1, text::ByteClass::Exactly(b[open]));
        }
    }
}

/// An instruction without some of its attributes is an instruction.
proof fn lemma_reduced_instruction(b: Seq<u8>, names: Seq<Seq<u8>>)
    requires
        ends_once(b),
        b.len() >= 11,
        text::occurs_at(b, rescanning::mark(), 0),
    ensures
        packet::without_attributes(b, names) matches Some(reduced) ==> {
            &&& reduced.len() >= 11
            &&& reduced == b.subrange(0, 9) + reduced.subrange(9, reduced.len() as int)
            &&& packet::kept_from(b, 9, names) == Some(
                reduced.subrange(9, reduced.len() as int),
            )
            &&& text::occurs_at(reduced, rescanning::mark(), 0)
            &&& ends_once(reduced)
        },
{
    reveal(ends_once);
    rescanning::lemma_marks();
    rescanning::lemma_mark_bytes(b, 0);
    lemma_kept_ends_once(b, 9, names);
    if let Some(reduced) = packet::without_attributes(b, names) {
        let kept = packet::kept_from(b, 9, names)->Some_0;
        assert(reduced == b.subrange(0, 9) + kept);
        assert(reduced.subrange(9, reduced.len() as int) =~= kept);
        assert(reduced.subrange(0, 9) =~= b.subrange(0, 9));
        assert forall|j: int| 0 <= j < reduced.len() - 2 implies !(#[trigger] reduced[j] == 0x3F
            && reduced[j + 1] == 0x3E) by {
            if j < 9 {
                assert(reduced[j] == b[0 + j]);
                assert(b[0 + j] == rescanning::mark()[j]);
                if j < 8 {
                    assert(reduced[j + 1] == b[0 + (j + 1)]);
                    assert(b[0 + (j + 1)] == rescanning::mark()[j + 1]);
                }
            } else {
                assert(reduced[j] == kept[j - 9] && reduced[j + 1] == kept[j - 9 + 1]);
            }
        }
        assert(reduced[reduced.len() - 2] == kept[kept.len() - 2]);
        assert(reduced[reduced.len() - 1] == kept[kept.len() - 1]);
    }
}

/// The opening instruction of a packet ends once.
proof fn lemma_header_ends_once(bytes: Seq<u8>)
    requires
        packet::scanned(bytes) matches Ok(d) && d.bytes().len() <= usize::MAX
            && d.envelope.header is Some,
    ensures
        ({
            let d = packet::scanned(bytes)->Ok_0;
            let instruction = packet::span_bytes(d.bytes(), d.envelope.header->Some_0);
            &&& instruction.len() >= 11
            &&& ends_once(instruction)
            &&& text::occurs_at(instruction, rescanning::mark(), 0)
        }),
{
    reveal(ends_once);
    let d = packet::scanned(bytes)->Ok_0;
    let b = d.bytes();
    let header = d.envelope.header->Some_0;
    let opening = header.start as int;
    let h = b.subrange(0, header.end as int);
    let instruction = packet::span_bytes(b, header);
    let closing = encode_utf8("?>"@);
    lemma_opening(bytes);
    rescanning::lemma_marks();
    rescanning::lemma_mark_bytes(b, opening);
    text::lemma_find_from(h, closing, opening);
    assert(instruction.subrange(0, 9) =~= b.subrange(opening, opening + 9));
    let n = instruction.len() as int;
    lemma_pair(h, h.len() - 2);
    assert(h.len() - 2 >= opening + 9) by {
        if h.len() - 2 < opening + 9 {
            let k = h.len() - 2 - opening;
            assert(b[opening + k] == rescanning::mark()[k]);
            assert(b[opening + k] == h[h.len() - 2]);
            assert(k == 1);
            assert(b[opening + 2] == rescanning::mark()[2]);
            assert(b[opening + 2] == h[h.len() - 1]);
        }
    }
    assert forall|j: int| 0 <= j < n - 2 implies !(#[trigger] instruction[j] == 0x3F
        && instruction[j + 1] == 0x3E) by {
        lemma_pair(h, opening + j);
        assert(instruction[j] == h[opening + j] && instruction[j + 1] == h[opening + j + 1]);
        assert(!text::occurs_at(h, closing, opening + j));
    }
    assert(instruction[n - 2] == h[h.len() - 2] && instruction[n - 1] == h[h.len() - 1]);
}

/// What a search for the instruction finds when it stands at the end of some bytes.
proof fn lemma_instruction_found(front: Seq<u8>, instruction: Seq<u8>, b: Seq<u8>)
    requires
        instruction.len() >= 11,
        ends_once(instruction),
        text::occurs_at(instruction, rescanning::mark(), 0),
        front.len() + 9 <= b.len(),
        forall|k: int| 0 <= k < front.len() + 9 ==> #[trigger] b[k] == (front + instruction)[k],
        forall|j: int| 0 <= j < front.len() ==> !#[trigger] text::occurs_at(
            b,
            rescanning::mark(),
            j,
        ),
    ensures
        ({
            let h = front + instruction;
            &&& text::find_from(h, rescanning::mark(), 0) == Some(front.len() as int)
            &&& text::find_from(h, encode_utf8("?>"@), front.len() as int) == Some(h.len() - 2)
        }),
{
    reveal(ends_once);
    let h = front + instruction;
    let n = front.len() as int;
    rescanning::lemma_marks();
    assert(h.subrange(n, n + 9) =~= instruction.subrange(0, 9));
    assert forall|j: int| 0 <= j < n implies !#[trigger] text::occurs_at(
        h,
        rescanning::mark(),
        j,
    ) by {
        if text::occurs_at(h, rescanning::mark(), j) {
            assert forall|k: int| 0 <= k < 9 implies h[j + k] == #[trigger] b[j + k] by {}
            rescanning::lemma_mark_moves(h, j, b, j);
        }
    }
    rescanning::lemma_first(h, rescanning::mark(), 0, n);
    lemma_pair(h, h.len() - 2);
    assert(h[h.len() - 2] == instruction[instruction.len() - 2]);
    assert(h[h.len() - 1] == instruction[instruction.len() - 1]);
    assert forall|j: int| n <= j < h.len() - 2 implies !#[trigger] text::occurs_at(
        h,
        encode_utf8("?>"@),
        j,
    ) by {
        lemma_pair(h, j);
        assert(h[j] == instruction[j - n] && h[j + 1] == instruction[j - n + 1]);
    }
    rescanning::lemma_first(h, encode_utf8("?>"@), n, h.len() - 2);
}

/// A packet without some attributes of its opening instruction scans to the same packet in the same
/// encoding, and has none of these attributes left to remove.
pub proof fn law_removing_attributes_keeps_the_packet(bytes: Seq<u8>, names: Seq<Seq<u8>>)
    requires
        packet::scanned(bytes) matches Ok(d) ==> d.bytes().len() <= usize::MAX,
    ensures
        packet::header_reduced(bytes, names) matches Ok(out) ==> (packet::scanned(
            bytes,
        ) matches Ok(d) && packet::scanned(out) matches Ok(e) && {
            &&& e.encoding == d.encoding
            &&& e.had_bom == d.had_bom
            &&& e.packet == d.packet
            &&& packet::header_reduced(out, names) == Ok::<Seq<u8>, ErrorView>(out)
        }),
{
    if let Ok(out) = packet::header_reduced(bytes, names) {
        let d = packet::scanned(bytes)->Ok_0;
        if let Some(header) = d.envelope.header {
            let instruction = packet::span_bytes(d.bytes(), header);
            if let Some(reduced) = packet::without_attributes(instruction, names) {
                lemma_header_reduced(bytes, names);
                packet::law_dropped_attributes_are_gone(instruction, names);
            }
        }
    }
}

/// A packet is read in its own encoding when its opening instruction was replaced by another.
#[verifier::spinoff_prover]
#[verifier::rlimit(60)]
proof fn lemma_reduced_reencoded(bytes: Seq<u8>, reduced: Seq<u8>)
    requires
        packet::scanned(bytes) matches Ok(d) && d.envelope.header is Some && d.bytes().len()
            <= usize::MAX,
        valid_utf8(reduced),
        text::occurs_at(reduced, rescanning::mark(), 0),
    ensures
        ({
            let d = packet::scanned(bytes)->Ok_0;
            let start = d.envelope.header->Some_0.start as int;
            let end = d.envelope.header->Some_0.end as int;
            let after = rewritten_bytes(d, start, end, reduced);
            &&& encode_utf8(decode_utf8(after)) == after
            &&& packet::scanned(d.respliced(start, end, reduced)) == (match packet::split(after) {
                Err(e) => Err(e),
                Ok(s) => Ok(packet::enclosed(d.encoding, d.had_bom, decode_utf8(after), s)),
            })
        }),
{
    let d = packet::scanned(bytes)->Ok_0;
    let b = d.bytes();
    let opening = d.envelope.header->Some_0.start as int;
    let start = d.envelope.header->Some_0.end as int;
    lemma_opening(bytes);
    rescanning::lemma_marks();
    let kept = reduced.subrange(9, reduced.len() as int);
    assert(is_char_boundary(b, opening + 9)) by {
        text::lemma_text_bytes(d.decoded);
        text::lemma_ascii_occurrence(b, rescanning::mark(), opening);
    }
    assert(valid_utf8(kept)) by {
        text::lemma_ascii_occurrence(reduced, rescanning::mark(), 0);
        valid_utf8_split(reduced, 9);
    }
    lemma_reencoded(bytes, opening + 9, start, kept);
    let rest = b.subrange(start, b.len() as int);
    assert(b.subrange(0, opening + 9) =~= b.subrange(0, opening) + rescanning::mark());
    assert(reduced =~= rescanning::mark() + kept);
    lemma_regrouped(b.subrange(0, opening), rescanning::mark(), kept, rest);
}

proof fn lemma_regrouped(a: Seq<u8>, b: Seq<u8>, c: Seq<u8>, d: Seq<u8>)
    ensures
        (a + b) + c + d == a + (b + c) + d,
{
    assert((a + b) + c + d =~= a + (b + c) + d);
}

/// What a scan finds where attributes of the opening instruction were removed.
pub proof fn lemma_header_reduced(bytes: Seq<u8>, names: Seq<Seq<u8>>)
    requires
        packet::scanned(bytes) matches Ok(d) && d.envelope.header matches Some(header)
            && d.bytes().len() <= usize::MAX && packet::without_attributes(
            packet::span_bytes(d.bytes(), header),
            names,
        ) is Some,
    ensures
        ({
            let d = packet::scanned(bytes)->Ok_0;
            let header = d.envelope.header->Some_0;
            let reduced = packet::without_attributes(
                packet::span_bytes(d.bytes(), header),
                names,
            )->Some_0;
            &&& packet::scanned(
                d.respliced(header.start as int, header.end as int, reduced),
            ) matches Ok(e)
            &&& e.encoding == d.encoding
            &&& e.had_bom == d.had_bom
            &&& e.packet == d.packet
            &&& e.envelope.header matches Some(h)
            &&& packet::span_bytes(e.bytes(), h) == reduced
        }),
{
    let d = packet::scanned(bytes)->Ok_0;
    let b = d.bytes();
    let header = d.envelope.header->Some_0;
    let instruction = packet::span_bytes(b, header);
    let reduced = packet::without_attributes(instruction, names)->Some_0;
    lemma_opening(bytes);
    lemma_header_ends_once(bytes);
    lemma_reduced_instruction(instruction, names);
    text::lemma_text_bytes(d.decoded);
    text::lemma_boundary_within(b, header.start as int, header.start as int, header.end as int);
    packet::lemma_reduced_is_text(instruction, names);
    lemma_reduced_reencoded(bytes, reduced);
    lemma_reduced_split(bytes, names);
    lemma_same_packet(
        bytes,
        reduced,
        rewritten_bytes(d, header.start as int, header.end as int, reduced),
    );
}

/// A packet falls into the same parts where attributes of the opening instruction were removed.
proof fn lemma_reduced_split(bytes: Seq<u8>, names: Seq<Seq<u8>>)
    requires
        packet::scanned(bytes) matches Ok(d) && d.envelope.header matches Some(header)
            && d.bytes().len() <= usize::MAX && packet::without_attributes(
            packet::span_bytes(d.bytes(), header),
            names,
        ) is Some,
    ensures
        ({
            let d = packet::scanned(bytes)->Ok_0;
            let header = d.envelope.header->Some_0;
            let opening = header.start as int;
            let instruction = packet::span_bytes(d.bytes(), header);
            let reduced = packet::without_attributes(instruction, names)->Some_0;
            let after = rewritten_bytes(d, opening, header.end as int, reduced);
            after.len() <= usize::MAX && packet::split(after) == Ok::<SplitPacket, ErrorView>(
                split_behind(d, (opening + reduced.len()) as int),
            )
        }),
{
    let d = packet::scanned(bytes)->Ok_0;
    let b = d.bytes();
    let header = d.envelope.header->Some_0;
    let opening = header.start as int;
    let start = header.end as int;
    let end = d.envelope.body.end as int;
    let instruction = packet::span_bytes(b, header);
    let reduced = packet::without_attributes(instruction, names)->Some_0;
    lemma_opening(bytes);
    lemma_closing(bytes);
    lemma_header_ends_once(bytes);
    lemma_reduced_instruction(instruction, names);
    let front = b.subrange(0, opening);
    let h = front + reduced;
    let m = b.subrange(start, end);
    let t = b.subrange(end, b.len() as int);
    assert(b.subrange(start, b.len() as int) =~= m + t);
    assert(h + (m + t) =~= h + m + t);
    assert forall|k: int| 0 <= k < opening + 9 implies #[trigger] b[k] == h[k] by {
        if k >= opening {
            assert(h[k] == reduced[k - opening]);
            assert(reduced[k - opening] == instruction.subrange(0, 9)[k - opening]);
        }
    }
    lemma_instruction_found(front, reduced, b);
    lemma_same_middle(b, start, end, h);
    rescanning::lemma_resplit_parts(h, m, t, opening);
}

/// How a packet falls apart when its opening instruction ends at another place.
spec fn split_behind(d: DecodedView, start: int) -> SplitPacket {
    let b = d.bytes();
    let header = d.envelope.header->Some_0;
    let t = b.subrange(d.envelope.body.end as int, b.len() as int);
    let end = start + (d.envelope.body.end - header.end);
    SplitPacket {
        header: Some(packet::span(header.start as int, start)),
        body: packet::span(start, end),
        trailer: if t.len() == 0 {
            None
        } else {
            Some(packet::span(end, end + instruction_end(t)))
        },
        writable: t.len() > 0 && packet::asks_writable(t.subrange(0, instruction_end(t))),
    }
}

/// No mark begins in the body of a packet when what stands before it is another.
proof fn lemma_same_middle(b: Seq<u8>, start: int, end: int, h: Seq<u8>)
    requires
        0 <= start <= end <= b.len(),
        forall|j: int|
            start <= j < end ==> !#[trigger] text::occurs_at(b, rescanning::mark(), j),
    ensures
        ({
            let m = b.subrange(start, end);
            let t = b.subrange(end, b.len() as int);
            forall|j: int|
                h.len() <= j < h.len() + m.len() ==> !#[trigger] text::occurs_at(
                    h + m + t,
                    rescanning::mark(),
                    j,
                )
        }),
{
    let m = b.subrange(start, end);
    let t = b.subrange(end, b.len() as int);
    let all = h + m + t;
    let shift = start - h.len();
    rescanning::lemma_marks();
    assert forall|j: int| h.len() <= j < h.len() + m.len() implies !#[trigger] text::occurs_at(
        all,
        rescanning::mark(),
        j,
    ) by {
        if text::occurs_at(all, rescanning::mark(), j) {
            assert forall|k: int| 0 <= k < 9 implies all[j + k] == #[trigger] b[j + shift + k] by {}
            rescanning::lemma_mark_moves(all, j, b, j + shift);
        }
    }
}

/// The packet stays where only its opening instruction changes.
proof fn lemma_same_packet(bytes: Seq<u8>, reduced: Seq<u8>, after: Seq<u8>)
    requires
        packet::scanned(bytes) matches Ok(d) && d.envelope.header matches Some(header)
            && d.bytes().len() <= usize::MAX && after.len() <= usize::MAX && after
            == rewritten_bytes(d, header.start as int, header.end as int, reduced)
            && encode_utf8(decode_utf8(after)) == after && packet::scanned(
            d.respliced(header.start as int, header.end as int, reduced),
        ) == (match packet::split(after) {
            Err(e) => Err(e),
            Ok(s) => Ok(packet::enclosed(d.encoding, d.had_bom, decode_utf8(after), s)),
        }) && packet::split(after) == Ok::<SplitPacket, ErrorView>(
            split_behind(d, header.start + reduced.len()),
        ),
    ensures
        ({
            let d = packet::scanned(bytes)->Ok_0;
            let header = d.envelope.header->Some_0;
            &&& packet::scanned(
                d.respliced(header.start as int, header.end as int, reduced),
            ) matches Ok(e)
            &&& e.encoding == d.encoding
            &&& e.had_bom == d.had_bom
            &&& e.packet == d.packet
            &&& e.envelope.header matches Some(h)
            &&& packet::span_bytes(e.bytes(), h) == reduced
        }),
{
    let d = packet::scanned(bytes)->Ok_0;
    let b = d.bytes();
    lemma_opening(bytes);
    lemma_closing(bytes);
    let s = packet::split(after)->Ok_0;
    let m = b.subrange(d.envelope.header->Some_0.end as int, d.envelope.body.end as int);
    assert(packet::span_bytes(after, s.body) =~= m);
    assert(packet::span_bytes(b, d.envelope.body) =~= m);
    assert(packet::span_bytes(after, s.header->Some_0) =~= reduced);
}

} // verus!
