//! What the repairs of a packet keep, and that they leave nothing to repair.

use vstd::prelude::*;
use vstd::string::*;
use vstd::utf8::*;

use crate::encoding;
use crate::error::ErrorView;
use crate::packet;
use crate::repair;
use crate::repair::{BodyRepair, TagKind};
use crate::rescanning;
use crate::resplicing;
use crate::text;
use crate::text::ByteClass;

verus! {

/// A packet is left as it is just where it has no instructions to tell its body from, or where there
/// is nothing to repair in that body. It is refused just where it cannot be scanned.
pub proof fn law_sound_bodies_are_left(bytes: Seq<u8>, repair: BodyRepair)
    ensures
        match packet::scanned(bytes) {
            Err(error) => repair::body_rewritten(bytes, repair) == Err::<
                Option<Seq<u8>>,
                ErrorView,
            >(error),
            Ok(d) => match (d.envelope.header, d.envelope.trailer) {
                (Some(header), Some(trailer)) => {
                    let body = d.bytes().subrange(header.end as int, trailer.start as int);
                    repair::body_rewritten(bytes, repair) matches Ok(out) && (out is None <==> (
                    match repair {
                        BodyRepair::Wrappers => repair::wrappers_closed(body) is None,
                        BodyRepair::Serialisation => repair::wrappers_closed(body) is None
                            && repair::close_case_repaired(body) is None,
                    }))
                },
                _ => repair::body_rewritten(bytes, repair) == Ok::<Option<Seq<u8>>, ErrorView>(
                    None,
                ),
            },
        },
{
}

/// A repair of the body keeps every byte outside it: the two instructions and what stands around
/// them, in the encoding of the packet.
pub proof fn law_body_repairs_keep_the_rest(bytes: Seq<u8>, repair: BodyRepair)
    requires
        packet::scanned(bytes) matches Ok(d) ==> d.bytes().len() <= usize::MAX,
    ensures
        repair::body_rewritten(bytes, repair) matches Ok(Some(out)) ==> (packet::scanned(
            bytes,
        ) matches Ok(d) && d.envelope.header matches Some(header)
            && d.envelope.trailer matches Some(trailer) && {
            let (before, after) = resplicing::bytes_around(
                d,
                header.end as int,
                trailer.start as int,
            );
            let body = d.bytes().subrange(header.end as int, trailer.start as int);
            &&& bytes == before + encoding::encoded_text(d.encoding, decode_utf8(body)) + after
            &&& repair::repaired_by(repair, body) matches Some(repaired)
            &&& out == before + encoding::encoded_text(d.encoding, decode_utf8(repaired)) + after
        }),
{
    if let Ok(Some(out)) = repair::body_rewritten(bytes, repair) {
        let d = packet::scanned(bytes)->Ok_0;
        let start = d.envelope.header->Some_0.end as int;
        let end = d.envelope.trailer->Some_0.start as int;
        let body = d.bytes().subrange(start, end);
        packet::law_scanned_spans_slice_the_text(bytes);
        text::lemma_text_bytes(d.decoded);
        text::lemma_boundary_within(d.bytes(), start, start, end);
        repair::lemma_wrappers_closed_is_text(body);
        repair::lemma_body_repaired_is_text(body);
        resplicing::law_replacing_a_part_keeps_the_other_bytes(
            bytes,
            start,
            end,
            repair::repaired_by(repair, body)->Some_0,
        );
    }
}

// ---------------------------------------------------------------------------------------------
// The case of closing tags
// ---------------------------------------------------------------------------------------------

/// Whether two texts differ by the case of letters at most.
spec fn alike(b: Seq<u8>, c: Seq<u8>) -> bool {
    &&& b.len() == c.len()
    &&& forall|i: int| 0 <= i < b.len() ==> repair::similar(#[trigger] b[i], c[i])
}

/// Whether a scan for `class` does not depend on the case of letters.
spec fn is_caseless(class: ByteClass) -> bool {
    class == ByteClass::Exactly(0x3C) || class == ByteClass::Exactly(0x3E) || class
        == ByteClass::TagNameEnd
}

/// Scans for marks do not depend on the case of letters.
proof fn lemma_alike_scan(b: Seq<u8>, c: Seq<u8>, from: int, class: ByteClass)
    requires
        alike(b, c),
        is_caseless(class),
    ensures
        text::scan(b, from, class) == text::scan(c, from, class),
    decreases b.len() - from,
{
    if 0 <= from < b.len() {
        assert(repair::similar(b[from], c[from]));
        lemma_alike_scan(b, c, from + 1, class);
    }
}

/// Nor does what is trimmed.
proof fn lemma_alike_trimmed(b: Seq<u8>, c: Seq<u8>, end: int)
    requires
        alike(b, c),
        end <= b.len(),
    ensures
        text::space_trimmed_end(b, end) == text::space_trimmed_end(c, end),
    decreases end,
{
    if end > 0 {
        assert(repair::similar(b[end - 1], c[end - 1]));
        lemma_alike_trimmed(b, c, end - 1);
    }
}

/// Nor does where the tags are.
proof fn lemma_alike_tags(b: Seq<u8>, c: Seq<u8>, cursor: int)
    requires
        alike(b, c),
        0 <= cursor <= b.len(),
    ensures
        repair::tag_from(b, cursor) == repair::tag_from(c, cursor),
{
    let open = text::scan(b, cursor, ByteClass::Exactly(0x3C));
    text::lemma_scan(b, cursor, ByteClass::Exactly(0x3C));
    lemma_alike_scan(b, c, cursor, ByteClass::Exactly(0x3C));
    if open + 1 < b.len() {
        assert(repair::similar(b[open + 1], c[open + 1]));
        let start = repair::name_start(b, open);
        text::lemma_scan(b, start, ByteClass::TagNameEnd);
        lemma_alike_scan(b, c, start, ByteClass::TagNameEnd);
        let end = text::scan(b, start, ByteClass::TagNameEnd);
        text::lemma_scan(b, end, ByteClass::Exactly(0x3E));
        lemma_alike_scan(b, c, end, ByteClass::Exactly(0x3E));
        lemma_alike_scan(b, c, open + 2, ByteClass::Exactly(0x3E));
        let tag_end = text::scan(b, end, ByteClass::Exactly(0x3E));
        lemma_alike_trimmed(b, c, tag_end);
        text::lemma_space_trimmed_end(b, tag_end);
        let trimmed = text::space_trimmed_end(b, tag_end);
        if trimmed > 0 {
            assert(repair::similar(b[trimmed - 1], c[trimmed - 1]));
        }
    }
}

/// Closing tags in the right case stay as they are.
#[verifier::spinoff_prover]
#[verifier::rlimit(60)]
proof fn lemma_cased_again(b: Seq<u8>, c: Seq<u8>, cursor: int, names: Seq<Seq<u8>>)
    requires
        alike(b, c),
        0 <= cursor <= b.len(),
        c.subrange(cursor, c.len() as int) == repair::cased_from(b, cursor, names),
    ensures
        repair::cased_from(c, cursor, names) == c.subrange(cursor, c.len() as int),
    decreases b.len() - cursor,
{
    let rest = c.subrange(cursor, c.len() as int);
    if cursor < b.len() {
        repair::lemma_tag_from(b, cursor);
        lemma_alike_tags(b, c, cursor);
        match repair::tag_from(b, cursor) {
            TagKind::Last => {},
            TagKind::Skipped(next) | TagKind::Empty(next) => {
                let after = repair::cased_from(b, next, names);
                repair::lemma_cased(b, next, names);
                assert(rest.subrange(next - cursor, rest.len() as int) =~= after);
                assert(c.subrange(next, c.len() as int) =~= after);
                lemma_cased_again(b, c, next, names);
                assert(c.subrange(cursor, next) + after =~= rest);
            },
            TagKind::Open(start, end, next) => {
                let name = b.subrange(start, end);
                let after = repair::cased_from(b, next, names.push(name));
                repair::lemma_cased(b, next, names.push(name));
                assert(rest.subrange(next - cursor, rest.len() as int) =~= after);
                assert(c.subrange(next, c.len() as int) =~= after);
                assert(rest.subrange(0, next - cursor) =~= b.subrange(cursor, next));
                assert(c.subrange(start, end) =~= rest.subrange(0, next - cursor).subrange(
                    start - cursor,
                    end - cursor,
                ));
                assert(name =~= b.subrange(cursor, next).subrange(start - cursor, end - cursor));
                lemma_cased_again(b, c, next, names.push(name));
                assert(c.subrange(cursor, next) + after =~= rest);
            },
            TagKind::Close(start, end, next) => {
                let name = repair::closing_name(names, b.subrange(start, end));
                let inner = repair::without_last(names);
                let after = repair::cased_from(b, next, inner);
                repair::lemma_cased(b, next, inner);
                assert(name.len() == end - start);
                assert(rest.subrange(next - cursor, rest.len() as int) =~= after);
                assert(c.subrange(next, c.len() as int) =~= after);
                assert(rest.subrange(start - cursor, end - cursor) =~= name);
                assert(c.subrange(start, end) =~= name);
                lemma_cased_again(b, c, next, inner);
                assert(c.subrange(cursor, start) + name + c.subrange(end, next) + after =~= rest);
            },
        }
    } else {
        assert(rest =~= Seq::<u8>::empty());
    }
}

/// Whether byte `i` stands in the name of a closing tag at or after `cursor`.
pub open spec fn in_closing_name(b: Seq<u8>, cursor: int, i: int) -> bool
    decreases b.len() - cursor,
{
    if cursor < 0 || cursor >= b.len() {
        false
    } else {
        proof {
            repair::lemma_tag_from(b, cursor);
        }
        match repair::tag_from(b, cursor) {
            TagKind::Last => false,
            TagKind::Skipped(next) => in_closing_name(b, next, i),
            TagKind::Empty(next) => in_closing_name(b, next, i),
            TagKind::Open(_, _, next) => in_closing_name(b, next, i),
            TagKind::Close(start, end, next) => start <= i < end || in_closing_name(b, next, i),
        }
    }
}

/// Byte `i` changes only in the name of a closing tag.
proof fn lemma_cased_place(b: Seq<u8>, cursor: int, names: Seq<Seq<u8>>, i: int)
    requires
        0 <= cursor <= i < b.len(),
        repair::cased_from(b, cursor, names)[i - cursor] != b[i],
    ensures
        in_closing_name(b, cursor, i),
    decreases b.len() - cursor,
{
    repair::lemma_tag_from(b, cursor);
    repair::lemma_cased(b, cursor, names);
    match repair::tag_from(b, cursor) {
        TagKind::Last => {},
        TagKind::Skipped(next) | TagKind::Empty(next) => {
            repair::lemma_cased(b, next, names);
            if next <= i {
                lemma_cased_place(b, next, names, i);
            }
        },
        TagKind::Open(start, end, next) => {
            let inner = names.push(b.subrange(start, end));
            repair::lemma_cased(b, next, inner);
            if next <= i {
                lemma_cased_place(b, next, inner, i);
            }
        },
        TagKind::Close(start, end, next) => {
            let outer = repair::without_last(names);
            let name = repair::closing_name(names, b.subrange(start, end));
            repair::lemma_cased(b, next, outer);
            if next <= i {
                lemma_cased_place(b, next, outer, i);
            }
        },
    }
}

/// The repair of closing tags changes the case of letters in the names of closing tags, and nothing
/// else. It is reported only where it changes something.
pub proof fn law_case_repair_changes_closing_names(b: Seq<u8>)
    ensures
        repair::close_case_repaired(b) matches Some(repaired) ==> {
            &&& repaired.len() == b.len()
            &&& repaired != b
            &&& text::equal_ignoring_case(b, repaired)
            &&& forall|i: int|
                0 <= i < b.len() && #[trigger] repaired[i] != b[i] ==> in_closing_name(b, 0, i)
        },
{
    let names = Seq::<Seq<u8>>::empty();
    let c = repair::cased_from(b, 0, names);
    repair::lemma_cased(b, 0, names);
    assert forall|i: int| 0 <= i < b.len() implies repair::similar(#[trigger] b[i], c[i]) by {
        assert(repair::similar(b[0 + i], c[i]));
    }
    assert forall|i: int| 0 <= i < b.len() && #[trigger] c[i] != b[i] implies in_closing_name(
        b,
        0,
        i,
    ) by {
        lemma_cased_place(b, 0, names, i);
    }
}

/// A body whose closing tags were set in the right case has none left to set.
pub proof fn law_case_repair_leaves_nothing(b: Seq<u8>)
    ensures
        repair::close_case_repaired(b) matches Some(repaired) ==> repair::close_case_repaired(
            repaired,
        ) is None,
{
    let names = Seq::<Seq<u8>>::empty();
    let c = repair::cased_from(b, 0, names);
    repair::lemma_cased(b, 0, names);
    assert forall|i: int| 0 <= i < b.len() implies repair::similar(#[trigger] b[i], c[i]) by {
        assert(repair::similar(b[0 + i], c[i]));
    }
    assert(c.subrange(0, c.len() as int) =~= c);
    lemma_cased_again(b, c, 0, names);
}

// ---------------------------------------------------------------------------------------------
// The closing tags of the wrappers
// ---------------------------------------------------------------------------------------------

/// Whether some bytes can be the name of an element as a search for tags sees it.
pub open spec fn is_tag_name(name: Seq<u8>) -> bool {
    &&& name.len() > 0
    &&& forall|i: int|
        0 <= i < name.len() ==> #[trigger] name[i] != 0x3C && name[i] != 0x3E && name[i] != 0x2F
}

/// Whether some bytes hold no `<` from `from` on.
spec fn no_tag_from(b: Seq<u8>, from: int) -> bool {
    forall|i: int| from <= i < b.len() ==> #[trigger] b[i] != 0x3C
}

/// Bytes that agree up to `end` have the same first mark before it.
proof fn lemma_scan_agrees(b: Seq<u8>, c: Seq<u8>, from: int, end: int, class: ByteClass)
    requires
        0 <= from <= end <= b.len(),
        end <= c.len(),
        b.subrange(0, end) == c.subrange(0, end),
        text::scan(b, from, class) < end,
    ensures
        text::scan(c, from, class) == text::scan(b, from, class),
    decreases end - from,
{
    text::lemma_scan(b, from, class);
    assert(b.subrange(0, end)[from] == b[from]);
    assert(c.subrange(0, end)[from] == c[from]);
    if !text::in_class(class, b[from]) {
        lemma_scan_agrees(b, c, from + 1, end, class);
    }
}

/// Bytes that agree up to `end` are trimmed alike before it.
proof fn lemma_trimmed_agrees(b: Seq<u8>, c: Seq<u8>, end: int)
    requires
        0 <= end <= b.len(),
        end <= c.len(),
        b.subrange(0, end) == c.subrange(0, end),
    ensures
        repair::self_closing(b, end) == repair::self_closing(c, end),
    decreases end,
{
    text::lemma_space_trimmed_end(b, end);
    if end > 0 {
        assert(b.subrange(0, end)[end - 1] == b[end - 1]);
        assert(c.subrange(0, end)[end - 1] == c[end - 1]);
        assert(b.subrange(0, end - 1) =~= b.subrange(0, end).subrange(0, end - 1));
        assert(c.subrange(0, end - 1) =~= c.subrange(0, end).subrange(0, end - 1));
        lemma_trimmed_agrees(b, c, end - 1);
    }
}

/// A search for tags that meets no `<` up to `to` goes on from there.
pub proof fn lemma_balance_skips(b: Seq<u8>, name: Seq<u8>, from: int, to: int)
    requires
        0 <= from <= to <= b.len(),
        forall|i: int| from <= i < to ==> #[trigger] b[i] != 0x3C,
    ensures
        repair::balance_from(b, name, from) == repair::balance_from(b, name, to),
    decreases to - from,
{
    if from < to {
        lemma_balance_skips(b, name, from + 1, to);
        assert(text::scan(b, from, ByteClass::Exactly(0x3C)) == text::scan(
            b,
            from + 1,
            ByteClass::Exactly(0x3C),
        ));
    }
}

/// Bytes put after a tag do not change what is counted before them, and are counted by themselves.
proof fn lemma_balance_of_parts(
    b: Seq<u8>,
    c: Seq<u8>,
    name: Seq<u8>,
    cursor: int,
    end: int,
)
    requires
        is_tag_name(name),
        0 <= cursor <= end <= b.len(),
        0 < end <= c.len(),
        b.subrange(0, end) == c.subrange(0, end),
        b[end - 1] == 0x3E,
        no_tag_from(b, end),
    ensures
        repair::balance_from(c, name, cursor) == repair::balance_from(b, name, cursor)
            + repair::balance_from(c, name, end),
    decreases end - cursor,
{
    let mark = ByteClass::Exactly(0x3C);
    let open = text::scan(b, cursor, mark);
    assert forall|i: int| 0 <= i < end implies #[trigger] b[i] == c[i] by {
        assert(b.subrange(0, end)[i] == b[i]);
        assert(c.subrange(0, end)[i] == c[i]);
    }
    text::lemma_scan(b, cursor, mark);
    if open >= end {
        assert forall|i: int| cursor <= i < end implies #[trigger] c[i] != 0x3C by {
            assert(!text::in_class(mark, b[i]));
        }
        lemma_balance_skips(b, name, cursor, b.len() as int);
        lemma_balance_skips(c, name, cursor, end);
    } else {
        lemma_scan_agrees(b, c, cursor, end, mark);
        repair::lemma_tag_bounds(b, cursor, name.len());
        let start = repair::name_start(b, open);
        assert(start < end);
        let stop = start + name.len();
        if text::occurs_at(b, name, start) && stop >= end {
            assert(b.subrange(start, stop)[end - 1 - start] == b[end - 1]);
        }
        if text::occurs_at(c, name, start) && stop >= end {
            assert(c.subrange(start, stop)[end - 1 - start] == c[end - 1]);
        }
        if stop < end {
            assert(b.subrange(start, stop) =~= c.subrange(start, stop));
        }
        if stop >= end || !text::occurs_at(b, name, start) || !text::in_class(
            ByteClass::TagNameEnd,
            b[stop],
        ) {
            lemma_balance_of_parts(b, c, name, start, end);
        } else {
            let close = ByteClass::Exactly(0x3E);
            let tag_end = text::scan(b, stop, close);
            text::lemma_scan(b, stop, close);
            assert(tag_end < end);
            lemma_scan_agrees(b, c, stop, end, close);
            assert(b.subrange(0, tag_end) =~= b.subrange(0, end).subrange(0, tag_end));
            assert(c.subrange(0, tag_end) =~= c.subrange(0, end).subrange(0, tag_end));
            lemma_trimmed_agrees(b, c, tag_end);
            lemma_balance_of_parts(b, c, name, tag_end + 1, end);
        }
    }
}

/// The bytes of a closing tag.
pub open spec fn closing_tag(name: Seq<u8>) -> Seq<u8> {
    seq![0x3Cu8, 0x2F] + name + seq![0x3Eu8]
}

/// A closing tag counts where it has the name, and only there.
proof fn lemma_balance_of_closing(b: Seq<u8>, name: Seq<u8>, closed: Seq<u8>, at: int)
    requires
        is_tag_name(name),
        is_tag_name(closed),
        0 <= at,
        text::occurs_at(b, closing_tag(closed), at),
        name == closed || name[0] != closed[0],
    ensures
        repair::balance_from(b, name, at) == repair::balance_from(
            b,
            name,
            at + closing_tag(closed).len(),
        ) - (if name == closed {
            1int
        } else {
            0
        }),
{
    let tag = closing_tag(closed);
    let next = at + tag.len();
    assert forall|i: int| 0 <= i < tag.len() implies #[trigger] tag[i] == b[at + i] by {
        assert(b.subrange(at, next)[i] == b[at + i]);
    }
    assert(tag[0] == 0x3C && tag[1] == 0x2F && tag[tag.len() - 1] == 0x3E);
    assert(b[at + 0] == 0x3C && b[at + 1] == 0x2F);
    assert(text::scan(b, at, ByteClass::Exactly(0x3C)) == at);
    let start = at + 2;
    assert forall|i: int| 0 <= i < closed.len() implies #[trigger] closed[i] == b[start + i] by {
        assert(tag[i + 2] == closed[i]);
        assert(b[at + (i + 2)] == tag[i + 2]);
    }
    let stop = next - 1;
    assert(b[at + (tag.len() - 1)] == 0x3E);
    if name == closed {
        assert(b.subrange(start, start + name.len()) =~= name);
        assert(text::scan(b, stop, ByteClass::Exactly(0x3E)) == stop);
    } else {
        if text::occurs_at(b, name, start) {
            assert(b.subrange(start, start + name.len())[0] == b[start + 0]);
            assert(closed[0] == b[start + 0]);
        }
        assert forall|i: int| start <= i < next implies #[trigger] b[i] != 0x3C by {
            if i < stop {
                assert(closed[i - start] == b[start + (i - start)]);
            }
        }
        lemma_balance_skips(b, name, start, next);
    }
}

/// The bytes of the two names and of their closing tags.
pub proof fn lemma_wrapper_names()
    ensures
        ({
            let xmpmeta = encode_utf8("x:xmpmeta"@);
            let rdf = encode_utf8("rdf:RDF"@);
            &&& is_tag_name(xmpmeta)
            &&& is_tag_name(rdf)
            &&& xmpmeta[0] != rdf[0]
            &&& encode_utf8("</rdf:RDF>"@) == closing_tag(rdf)
            &&& encode_utf8("</x:xmpmeta>"@) == closing_tag(xmpmeta)
        }),
{
    reveal_strlit("x:xmpmeta");
    reveal_strlit("rdf:RDF");
    reveal_strlit("</rdf:RDF>");
    reveal_strlit("</x:xmpmeta>");
    text::lemma_ascii_bytes("x:xmpmeta"@);
    text::lemma_ascii_bytes("rdf:RDF"@);
    text::lemma_ascii_bytes("</rdf:RDF>"@);
    text::lemma_ascii_bytes("</x:xmpmeta>"@);
    assert("x:xmpmeta"@.len() == 9 && "rdf:RDF"@.len() == 7);
    assert(encode_utf8("</rdf:RDF>"@) =~= closing_tag(encode_utf8("rdf:RDF"@)));
    assert(encode_utf8("</x:xmpmeta>"@) =~= closing_tag(encode_utf8("x:xmpmeta"@)));
}

/// Whether a body ends with a tag, but for white space.
pub open spec fn ends_with_a_tag(b: Seq<u8>) -> bool {
    let end = text::space_trimmed_end(b, b.len() as int);
    end > 0 && b[end - 1] == 0x3E
}

/// Closing the wrappers of a body that ends with a tag closes each open wrapper once. Where no
/// wrapper lacks more than one closing tag, nothing is left to close.
pub proof fn law_closing_wrappers_closes_each_once(b: Seq<u8>)
    requires
        ends_with_a_tag(b),
    ensures
        repair::wrappers_closed(b) matches Some(closed) ==> {
            let xmpmeta = encode_utf8("x:xmpmeta"@);
            let rdf = encode_utf8("rdf:RDF"@);
            let xmpmeta_before = repair::balance_from(b, xmpmeta, 0);
            let rdf_before = repair::balance_from(b, rdf, 0);
            &&& repair::balance_from(closed, xmpmeta, 0) == (if xmpmeta_before > 0 {
                xmpmeta_before - 1
            } else {
                xmpmeta_before
            })
            &&& repair::balance_from(closed, rdf, 0) == (if rdf_before > 0 {
                rdf_before - 1
            } else {
                rdf_before
            })
            &&& (xmpmeta_before <= 1 && rdf_before <= 1) ==> repair::wrappers_closed(closed) is None
        },
{
    if let Some(c) = repair::wrappers_closed(b) {
        lemma_wrapper_names();
        lemma_closed_balance(b, c, encode_utf8("x:xmpmeta"@));
        lemma_closed_balance(b, c, encode_utf8("rdf:RDF"@));
    }
}

/// What closing the wrappers does to the balance of one of them.
proof fn lemma_closed_balance(b: Seq<u8>, c: Seq<u8>, name: Seq<u8>)
    requires
        ends_with_a_tag(b),
        repair::wrappers_closed(b) == Some(c),
        name == encode_utf8("x:xmpmeta"@) || name == encode_utf8("rdf:RDF"@),
    ensures
        repair::balance_from(c, name, 0) == (if repair::balance_from(b, name, 0) > 0 {
            repair::balance_from(b, name, 0) - 1
        } else {
            repair::balance_from(b, name, 0)
        }),
{
    lemma_wrapper_names();
    let xmpmeta = encode_utf8("x:xmpmeta"@);
    let rdf = encode_utf8("rdf:RDF"@);
    let end = text::space_trimmed_end(b, b.len() as int);
    text::lemma_space_trimmed_end(b, b.len() as int);
    let head = b.subrange(0, end);
    let tail = b.subrange(end, b.len() as int);
    let first = if repair::balance_from(b, rdf, 0) > 0 {
        encode_utf8("</rdf:RDF>"@)
    } else {
        Seq::empty()
    };
    let second = if repair::balance_from(b, xmpmeta, 0) > 0 {
        encode_utf8("</x:xmpmeta>"@)
    } else {
        Seq::empty()
    };
    assert(c == head + first + second + tail);
    assert(c.subrange(0, end) =~= head);
    assert forall|i: int| end <= i < b.len() implies #[trigger] b[i] != 0x3C by {
        assert(text::is_space_byte(b[i]));
    }
    lemma_balance_of_parts(b, c, name, 0, end);
    let middle = end + first.len();
    let last = middle + second.len();
    if first.len() > 0 {
        assert(c.subrange(end, middle) =~= first);
        lemma_balance_of_closing(c, name, rdf, end);
    }
    if second.len() > 0 {
        assert(c.subrange(middle, last) =~= second);
        lemma_balance_of_closing(c, name, xmpmeta, middle);
    }
    assert forall|i: int| last <= i < c.len() implies #[trigger] c[i] != 0x3C by {
        assert(c[i] == tail[i - last]);
        assert(text::is_space_byte(b[end + (i - last)]));
    }
    lemma_balance_skips(c, name, last, c.len() as int);
}

// ---------------------------------------------------------------------------------------------
// The canonical form
// ---------------------------------------------------------------------------------------------

/// Whether some bytes are closing tags, as far as a search for marks can tell.
spec fn is_closing(added: Seq<u8>) -> bool {
    &&& added.len() > 0
    &&& added[0] == 0x3C
    &&& forall|k: int|
        0 <= k < added.len() && #[trigger] added[k] == 0x3C ==> k + 1 < added.len() && added[k + 1]
            == 0x2F
}

/// Inserting closing tags makes no mark.
proof fn lemma_insertion_is_unmarked(head: Seq<u8>, added: Seq<u8>, tail: Seq<u8>)
    requires
        rescanning::is_unmarked(head + tail),
        is_closing(added),
    ensures
        rescanning::is_unmarked(head + added + tail),
{
    let c = head + added + tail;
    let whole = c + rescanning::mark();
    let source = head + tail + rescanning::mark();
    let end = head.len() as int;
    let width = added.len() as int;
    assert forall|j: int| 0 <= j < c.len() implies !#[trigger] text::occurs_at(
        whole,
        rescanning::mark(),
        j,
    ) by {
        if text::occurs_at(whole, rescanning::mark(), j) {
            rescanning::lemma_mark_bytes(whole, j);
            if j < end {
                assert(whole[end] == added[0]);
                assert forall|k: int| 0 <= k < 9 implies whole[j + k] == #[trigger] source[j
                    + k] by {}
                rescanning::lemma_mark_moves(whole, j, source, j);
            } else if j < end + width {
                assert(whole[j] == added[j - end]);
                assert(whole[j + 1] == added[j - end + 1]);
            } else {
                assert forall|k: int| 0 <= k < 9 implies whole[j + k] == #[trigger] source[j - width
                    + k] by {}
                rescanning::lemma_mark_moves(whole, j, source, j - width);
            }
        }
    }
}

/// Closing the wrappers makes no mark.
proof fn lemma_closed_is_unmarked(b: Seq<u8>)
    requires
        rescanning::is_unmarked(b),
    ensures
        repair::wrappers_closed(b) matches Some(c) ==> rescanning::is_unmarked(c),
{
    if let Some(c) = repair::wrappers_closed(b) {
        lemma_wrapper_names();
        let xmpmeta = encode_utf8("x:xmpmeta"@);
        let rdf = encode_utf8("rdf:RDF"@);
        let end = text::space_trimmed_end(b, b.len() as int);
        text::lemma_space_trimmed_end(b, b.len() as int);
        let head = b.subrange(0, end);
        let tail = b.subrange(end, b.len() as int);
        let first = if repair::balance_from(b, rdf, 0) > 0 {
            closing_tag(rdf)
        } else {
            Seq::empty()
        };
        let second = if repair::balance_from(b, xmpmeta, 0) > 0 {
            closing_tag(xmpmeta)
        } else {
            Seq::empty()
        };
        let added = first + second;
        assert forall|k: int| 0 <= k < added.len() && #[trigger] added[k] == 0x3C implies k + 1
            < added.len() && added[k + 1] == 0x2F by {
            if k < first.len() {
                lemma_closing_tag_bytes(rdf, k);
            } else {
                lemma_closing_tag_bytes(xmpmeta, k - first.len());
            }
        }
        assert(added[0] == 0x3C);
        assert(head + tail =~= b);
        assert(c =~= head + added + tail);
        lemma_insertion_is_unmarked(head, added, tail);
    }
}

/// Only the first byte of a closing tag is a `<`.
proof fn lemma_closing_tag_bytes(name: Seq<u8>, k: int)
    requires
        is_tag_name(name),
        0 <= k < closing_tag(name).len(),
        closing_tag(name)[k] == 0x3C,
    ensures
        k == 0,
        closing_tag(name)[1] == 0x2F,
{
    if k >= 2 && k < closing_tag(name).len() - 1 {
        assert(closing_tag(name)[k] == name[k - 2]);
    }
}

/// Setting the case of closing tags makes no mark: a closing tag gets a name that stands in the
/// body.
proof fn lemma_cased_is_unmarked(b: Seq<u8>, cursor: int, names: Seq<Seq<u8>>)
    requires
        rescanning::is_unmarked(b),
        0 <= cursor <= b.len(),
        forall|i: int| 0 <= i < names.len() ==> rescanning::is_clean(#[trigger] names[i]),
    ensures
        rescanning::is_unmarked(repair::cased_from(b, cursor, names)),
    decreases b.len() - cursor,
{
    let c = repair::cased_from(b, cursor, names);
    if cursor < b.len() {
        repair::lemma_tag_from(b, cursor);
        lemma_part_is_clean(b);
        lemma_tag_end(b, cursor);
        let length = b.len() as int;
        match repair::tag_from(b, cursor) {
            TagKind::Last => {
                lemma_whole_piece(b, cursor, length, Seq::empty());
                assert(c + Seq::<u8>::empty() =~= c);
            },
            TagKind::Skipped(next) | TagKind::Empty(next) => {
                lemma_cased_is_unmarked(b, next, names);
                lemma_whole_piece(b, cursor, next, repair::cased_from(b, next, names));
            },
            TagKind::Open(start, end, next) => {
                let inner = names.push(b.subrange(start, end));
                lemma_cased_is_unmarked(b, next, inner);
                lemma_whole_piece(b, cursor, next, repair::cased_from(b, next, inner));
            },
            TagKind::Close(start, end, next) => {
                let inner = repair::without_last(names);
                let name = repair::closing_name(names, b.subrange(start, end));
                let rest = repair::cased_from(b, next, inner);
                lemma_cased_is_unmarked(b, next, inner);
                lemma_piece_is_unmarked(b, cursor, start, end, next, name, rest);
            },
        }
    }
}

/// A piece of the body as it is, before something without marks.
proof fn lemma_whole_piece(b: Seq<u8>, cursor: int, next: int, rest: Seq<u8>)
    requires
        rescanning::is_unmarked(b),
        rescanning::is_unmarked(rest),
        0 <= cursor < next <= b.len(),
        b[next - 1] == 0x3E || (next == b.len() && rest.len() == 0),
    ensures
        rescanning::is_unmarked(b.subrange(cursor, next) + rest),
{
    lemma_part_is_clean(b);
    lemma_piece_is_unmarked(b, cursor, next, next, next, b.subrange(next, next), rest);
    assert(b.subrange(cursor, next) + b.subrange(next, next) + b.subrange(next, next) + rest
        =~= b.subrange(cursor, next) + rest);
}

/// The last byte of a tag, and the bytes around the name of a closing tag.
proof fn lemma_tag_end(b: Seq<u8>, cursor: int)
    requires
        0 <= cursor <= b.len(),
    ensures
        match repair::tag_from(b, cursor) {
            TagKind::Last => true,
            TagKind::Skipped(next) => next == b.len() || b[next - 1] == 0x3E,
            TagKind::Empty(next) => b[next - 1] == 0x3E,
            TagKind::Open(_, _, next) => b[next - 1] == 0x3E,
            TagKind::Close(start, end, next) => b[next - 1] == 0x3E && b[start - 1] == 0x2F
                && text::in_class(ByteClass::TagNameEnd, b[end]),
        },
{
    let open = text::scan(b, cursor, ByteClass::Exactly(0x3C));
    text::lemma_scan(b, cursor, ByteClass::Exactly(0x3C));
    if open + 1 < b.len() {
        let start = repair::name_start(b, open);
        text::lemma_scan(b, start, ByteClass::TagNameEnd);
        let end = text::scan(b, start, ByteClass::TagNameEnd);
        text::lemma_scan(b, end, ByteClass::Exactly(0x3E));
        text::lemma_scan(b, open + 2, ByteClass::Exactly(0x3E));
    }
}

/// A part of a body without marks has none.
proof fn lemma_part_is_clean(b: Seq<u8>)
    requires
        rescanning::is_unmarked(b),
    ensures
        forall|start: int, end: int|
            0 <= start <= end <= b.len() ==> rescanning::is_clean(#[trigger] b.subrange(start, end)),
{
    assert forall|start: int, end: int| 0 <= start <= end <= b.len() implies rescanning::is_clean(
        #[trigger] b.subrange(start, end),
    ) by {
        let part = b.subrange(start, end);
        assert forall|j: int| !#[trigger] text::occurs_at(part, rescanning::mark(), j) by {
            if text::occurs_at(part, rescanning::mark(), j) {
                rescanning::lemma_mark_bytes(part, j);
                let whole = b + rescanning::mark();
                assert forall|k: int| 0 <= k < 9 implies part[j + k] == #[trigger] whole[start + j
                    + k] by {}
                rescanning::lemma_mark_moves(part, j, whole, start + j);
            }
        }
    }
}

/// A piece of the body, with the name of a closing tag replaced or as it is, before something
/// without marks.
proof fn lemma_piece_is_unmarked(
    b: Seq<u8>,
    cursor: int,
    start: int,
    end: int,
    next: int,
    name: Seq<u8>,
    rest: Seq<u8>,
)
    requires
        rescanning::is_unmarked(b),
        rescanning::is_unmarked(rest),
        rescanning::is_clean(name),
        0 <= cursor <= start <= end <= next <= b.len(),
        cursor < next,
        start == next ==> name.len() == 0,
        b[next - 1] == 0x3E || (start == next == b.len() && rest.len() == 0),
        start < next ==> cursor < start && b[start - 1] == 0x2F && end < next && text::in_class(
            ByteClass::TagNameEnd,
            b[end],
        ),
    ensures
        rescanning::is_unmarked(b.subrange(cursor, start) + name + b.subrange(end, next) + rest),
{
    let before = b.subrange(cursor, start);
    let after = b.subrange(end, next);
    let c = before + name + after + rest;
    let whole = c + rescanning::mark();
    let source = b + rescanning::mark();
    let first = before.len() as int;
    let second = first + name.len();
    let third = second + after.len();
    assert forall|j: int| 0 <= j < c.len() implies !#[trigger] text::occurs_at(
        whole,
        rescanning::mark(),
        j,
    ) by {
        if text::occurs_at(whole, rescanning::mark(), j) {
            rescanning::lemma_mark_bytes(whole, j);
            if j >= third {
                let later = rest + rescanning::mark();
                assert forall|k: int| 0 <= k < 9 implies whole[j + k] == #[trigger] later[j - third
                    + k] by {}
                rescanning::lemma_mark_moves(whole, j, later, j - third);
            } else if start == next {
                if b[next - 1] == 0x3E {
                    assert(whole[third - 1] == b[next - 1]);
                }
                assert forall|k: int| 0 <= k < 9 implies whole[j + k] == #[trigger] source[cursor
                    + j + k] by {}
                rescanning::lemma_mark_moves(whole, j, source, cursor + j);
            } else {
                assert(whole[third - 1] == b[next - 1]);
                assert(whole[first - 1] == b[start - 1]);
                assert(whole[second] == b[end]);
                if j < first {
                    assert forall|k: int| 0 <= k < 9 implies whole[j + k] == #[trigger] source[cursor
                        + j + k] by {}
                    rescanning::lemma_mark_moves(whole, j, source, cursor + j);
                } else if j < second {
                    assert forall|k: int| 0 <= k < 9 implies whole[j + k] == #[trigger] name[j
                        - first + k] by {}
                    rescanning::lemma_mark_moves(whole, j, name, j - first);
                } else {
                    assert forall|k: int| 0 <= k < 9 implies whole[j + k] == #[trigger] source[end
                        + j - second + k] by {}
                    rescanning::lemma_mark_moves(whole, j, source, end + j - second);
                }
            }
        }
    }
}

/// No mark begins between the instructions of a packet.
pub proof fn lemma_scanned_body(bytes: Seq<u8>)
    requires
        packet::scanned(bytes) matches Ok(d) && d.bytes().len() <= usize::MAX
            && d.envelope.header is Some && d.envelope.trailer is Some,
    ensures
        ({
            let d = packet::scanned(bytes)->Ok_0;
            let start = d.envelope.header->Some_0.end as int;
            let end = d.envelope.trailer->Some_0.start as int;
            let body = d.bytes().subrange(start, end);
            &&& 0 <= start <= end <= d.bytes().len()
            &&& d.envelope.body == packet::span(start, end)
            &&& valid_utf8(body)
            &&& rescanning::is_unmarked(body)
        }),
{
    let d = packet::scanned(bytes)->Ok_0;
    let b = d.bytes();
    let start = d.envelope.header->Some_0.end as int;
    let end = d.envelope.trailer->Some_0.start as int;
    let body = b.subrange(start, end);
    packet::law_scanned_spans_slice_the_text(bytes);
    text::lemma_text_bytes(d.decoded);
    text::lemma_boundary_within(b, start, start, end);
    rescanning::lemma_marks();
    text::lemma_find_from(b, rescanning::mark(), 0);
    let header = text::find_from(b, rescanning::mark(), 0)->Some_0;
    text::lemma_find_from(b, encode_utf8("?>"@), header);
    text::lemma_find_from(b, rescanning::mark(), start);
    rescanning::lemma_mark_bytes(b, end);
    let whole = body + rescanning::mark();
    assert forall|j: int| 0 <= j < body.len() implies !#[trigger] text::occurs_at(
        whole,
        rescanning::mark(),
        j,
    ) by {
        if text::occurs_at(whole, rescanning::mark(), j) {
            assert forall|k: int| 0 <= k < 9 implies whole[j + k] == #[trigger] b[start + j
                + k] by {
                if j + k >= body.len() {
                    assert(b[end + (j + k - body.len())] == rescanning::mark()[j + k - body.len()]);
                }
            }
            rescanning::lemma_mark_moves(whole, j, b, start + j);
        }
    }
}

/// A repaired body is text in which no mark begins.
pub proof fn lemma_repaired_body(body: Seq<u8>, repair: BodyRepair)
    requires
        valid_utf8(body),
        rescanning::is_unmarked(body),
    ensures
        repair::repaired_by(repair, body) matches Some(repaired) ==> valid_utf8(repaired)
            && rescanning::is_unmarked(repaired),
{
    let names = Seq::<Seq<u8>>::empty();
    repair::lemma_wrappers_closed_is_text(body);
    repair::lemma_body_repaired_is_text(body);
    lemma_closed_is_unmarked(body);
    lemma_cased_is_unmarked(body, 0, names);
    lemma_closed_is_unmarked(repair::cased_from(body, 0, names));
}

/// The body that the canonical form of a packet holds: the body between the instructions, repaired
/// where it can be.
pub open spec fn kept_body(d: packet::DecodedView) -> Seq<u8> {
    let body = packet::span_bytes(d.bytes(), d.envelope.body);
    match repair::body_repaired(body) {
        Some(repaired) => repaired,
        None => body,
    }
}

/// What a scan finds in the canonical form of a packet.
proof fn lemma_canonical_form(m: Seq<u8>, writable: bool)
    requires
        valid_utf8(m),
        rescanning::is_unmarked(m),
        repair::canonical_packet(m, writable).len() <= usize::MAX,
    ensures
        packet::scanned(repair::canonical_packet(m, writable)) matches Ok(e) && {
            &&& e.encoding is Utf8
            &&& !e.had_bom
            &&& e.bytes() == repair::canonical_packet(m, writable)
            &&& e.packet.writable == writable
            &&& e.envelope.header is Some
            &&& e.envelope.trailer is Some
            &&& e.envelope.header->Some_0.end == e.envelope.body.start
            &&& e.envelope.trailer->Some_0.start == e.envelope.body.end
            &&& packet::span_bytes(e.bytes(), e.envelope.body) == m
        },
{
    let head = repair::canonical_header();
    let tail = repair::canonical_trailer(writable);
    let h = encode_utf8(head);
    let t = encode_utf8(tail);
    let out = repair::canonical_packet(m, writable);
    let middle = decode_utf8(m);
    let whole = head + middle + tail;
    decode_utf8_encode_utf8(m);
    text::lemma_encode_concat(head + middle, tail);
    text::lemma_encode_concat(head, middle);
    assert(encode_utf8(whole) =~= out);
    rescanning::lemma_canonical_header();
    rescanning::lemma_canonical_trailer(writable);
    encoding::law_packet_round_trip(whole, encoding::XmpEncoding::Utf8, false);
    assert(whole[0] == '<' && whole[1] == '?');
    assert(encoding::encoded_packet(whole, encoding::XmpEncoding::Utf8, false) == out);
    rescanning::lemma_unmarked_between(h, m, t);
    rescanning::lemma_resplit_parts(h, m, t, 0);
    let s = packet::split(out)->Ok_0;
    assert(t.subrange(0, t.len() as int) =~= t);
    let e = packet::scanned(out)->Ok_0;
    assert(e == packet::enclosed(encoding::XmpEncoding::Utf8, false, whole, s));
    assert(packet::span_bytes(out, s.body) =~= m);
}

/// The canonical form of a packet is UTF-8 and scans to a packet with the same writability whose
/// body is the repaired one. A body that needed no repair is retained with its padding. Where the
/// body has nothing left to repair, the canonical form of the canonical form is itself.
pub proof fn law_canonical_form_is_canonical(bytes: Seq<u8>)
    requires
        packet::scanned(bytes) matches Ok(d) ==> d.bytes().len() <= usize::MAX,
        repair::canonicalised(bytes) matches Ok(out) ==> out.len() <= usize::MAX,
    ensures
        repair::canonicalised(bytes) matches Ok(out) ==> (packet::scanned(bytes) matches Ok(d)
            && packet::scanned(out) matches Ok(e) && {
            let kept = kept_body(d);
            &&& e.encoding is Utf8
            &&& !e.had_bom
            &&& e.packet.writable == d.packet.writable
            &&& packet::span_bytes(e.bytes(), e.envelope.body) == kept
            &&& kept == packet::span_bytes(d.bytes(), d.envelope.body) ==> e.packet == d.packet
            &&& repair::body_repaired(kept) is None ==> repair::canonicalised(out) == Ok::<
                Seq<u8>,
                ErrorView,
            >(out)
        }),
{
    if let Ok(out) = repair::canonicalised(bytes) {
        let d = packet::scanned(bytes)->Ok_0;
        let body = packet::span_bytes(d.bytes(), d.envelope.body);
        let kept = kept_body(d);
        lemma_scanned_body(bytes);
        lemma_repaired_body(body, BodyRepair::Serialisation);
        lemma_canonical_form(kept, d.packet.writable);
    }
}

} // verus!
