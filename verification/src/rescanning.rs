//! Scanning a packet whose body was written: the envelope is found again around it.

use vstd::prelude::*;
use vstd::string::*;
use vstd::utf8::*;

use crate::encoding;
use crate::encoding::XmpEncoding;
use crate::error::ErrorView;
use crate::packet;
use crate::packet::SplitPacket;
use crate::relexing;
use crate::relexing::Scope;
use crate::repair;
use crate::repair::{CANONICAL_BEGIN, CANONICAL_PACKET_ID};
use crate::text;
use crate::text::ByteClass;
use crate::writer;
use crate::writer::Written;
use crate::xml;

verus! {

// ---------------------------------------------------------------------------------------------
// Text without instructions
// ---------------------------------------------------------------------------------------------

/// Whether every `<` of a text is followed in it by a character other than `?`, so that the text
/// neither holds a processing instruction nor ends in the beginning of one.
pub open spec fn no_instruction(text: Seq<char>) -> bool {
    forall|i: int|
        0 <= i < text.len() && #[trigger] text[i] == '<' ==> i + 1 < text.len() && text[i + 1]
            != '?'
}

/// Whether a text holds no `<`.
spec fn no_markup(text: Seq<char>) -> bool {
    forall|i: int| 0 <= i < text.len() ==> #[trigger] text[i] != '<'
}

/// Joining texts without instructions makes none.
pub proof fn lemma_no_instruction_join(a: Seq<char>, b: Seq<char>)
    requires
        no_instruction(a),
        no_instruction(b),
    ensures
        no_instruction(a + b),
{
    let whole = a + b;
    assert forall|i: int| 0 <= i < whole.len() && #[trigger] whole[i] == '<' implies i + 1
        < whole.len() && whole[i + 1] != '?' by {
        if i < a.len() {
            assert(a[i] == '<');
        } else {
            assert(b[i - a.len()] == '<');
        }
    }
}

/// An escaped attribute value holds no markup.
proof fn lemma_escaped_attribute(value: Seq<char>)
    ensures
        no_markup(xml::escaped_attribute(value)),
    decreases value.len(),
{
    if value.len() > 0 {
        lemma_escaped_attribute(value.drop_last());
        reveal_strlit("amp");
        reveal_strlit("lt");
        reveal_strlit("gt");
        reveal_strlit("quot");
        reveal_strlit("#x9");
        reveal_strlit("#xA");
        reveal_strlit("#xD");
        let before = xml::escaped_attribute(value.drop_last());
        let last = match xml::attribute_entity(value.last()) {
            Some(entity) => xml::reference(entity),
            None => seq![value.last()],
        };
        assert(no_markup(last));
        let whole = xml::escaped_attribute(value);
        assert forall|i: int| 0 <= i < whole.len() implies #[trigger] whole[i] != '<' by {
            if i < before.len() {
                assert(whole[i] == before[i]);
            } else {
                assert(whole[i] == last[i - before.len()]);
            }
        }
    }
}

/// Escaped character data holds no markup.
proof fn lemma_escaped_text(text: Seq<char>)
    ensures
        no_markup(xml::escaped_text(text)),
    decreases text.len(),
{
    if text.len() > 0 {
        lemma_escaped_text(text.drop_first());
        reveal_strlit("amp");
        reveal_strlit("lt");
        reveal_strlit("gt");
        reveal_strlit("#xD");
        let after = xml::escaped_text(text.drop_first());
        let first = match xml::text_entity(text[0]) {
            Some(entity) => xml::reference(entity),
            None => seq![text[0]],
        };
        assert(no_markup(first));
        let whole = xml::escaped_text(text);
        assert forall|i: int| 0 <= i < whole.len() implies #[trigger] whole[i] != '<' by {
            if i < first.len() {
                assert(whole[i] == first[i]);
            } else {
                assert(whole[i] == after[i - first.len()]);
            }
        }
    }
}

/// The text of attributes holds no markup.
proof fn lemma_attributes_text(attributes: Seq<(Seq<char>, Seq<char>)>)
    requires
        forall|i: int| 0 <= i < attributes.len() ==> xml::is_name((#[trigger] attributes[i]).0),
        forall|i: int| 0 <= i < attributes.len() ==> no_markup((#[trigger] attributes[i]).1),
    ensures
        no_markup(xml::attributes_text(attributes)),
    decreases attributes.len(),
{
    if attributes.len() > 0 {
        let before = attributes.drop_last();
        assert forall|i: int| 0 <= i < before.len() implies xml::is_name((#[trigger] before[i]).0)
            && no_markup(before[i].1) by {
            assert(before[i] == attributes[i]);
        }
        lemma_attributes_text(before);
        let (key, value) = attributes.last();
        assert(attributes[attributes.len() - 1] == (key, value));
        let first = xml::attributes_text(before);
        let last = xml::attribute_text(key, value);
        assert forall|i: int| 0 <= i < last.len() implies #[trigger] last[i] != '<' by {
            if 1 <= i < 1 + key.len() {
                assert(last[i] == key[i - 1]);
                assert(xml::is_name_char(key[i - 1]));
            } else if 3 + key.len() <= i < 3 + key.len() + value.len() {
                assert(last[i] == value[i - 3 - key.len()]);
            }
        }
        let whole = xml::attributes_text(attributes);
        assert forall|i: int| 0 <= i < whole.len() implies #[trigger] whole[i] != '<' by {
            if i < first.len() {
                assert(whole[i] == first[i]);
            } else {
                assert(whole[i] == last[i - first.len()]);
            }
        }
    }
}

/// Tags hold no instructions.
proof fn lemma_tags(w: Written)
    requires
        xml::is_name(w.name),
        xml::are_attributes(writer::escaped_attrs(w.attrs)),
    ensures
        no_instruction(writer::start_tag(w)),
        no_instruction(writer::end_tag(w.name)),
{
    let escaped = writer::escaped_attrs(w.attrs);
    assert forall|i: int| 0 <= i < escaped.len() implies no_markup((#[trigger] escaped[i]).1) by {
        lemma_escaped_attribute(w.attrs[i].1);
    }
    lemma_attributes_text(escaped);
    let attrs = xml::attributes_text(escaped);
    let tag = writer::start_tag(w);
    assert(xml::is_name_char(w.name[0]));
    assert(tag[1] == w.name[0]);
    assert forall|i: int| 0 <= i < tag.len() && #[trigger] tag[i] == '<' implies i + 1 < tag.len()
        && tag[i + 1] != '?' by {
        if 1 <= i < 1 + w.name.len() {
            assert(tag[i] == w.name[i - 1]);
            assert(xml::is_name_char(w.name[i - 1]));
        } else if 1 + w.name.len() <= i < 1 + w.name.len() + attrs.len() {
            assert(tag[i] == attrs[i - 1 - w.name.len()]);
        }
    }
    let end = writer::end_tag(w.name);
    assert forall|i: int| 0 <= i < end.len() && #[trigger] end[i] == '<' implies i + 1 < end.len()
        && end[i + 1] != '?' by {
        if 2 <= i < 2 + w.name.len() {
            assert(end[i] == w.name[i - 2]);
            assert(xml::is_name_char(w.name[i - 2]));
        }
    }
}

/// An element in its written form holds no instructions.
pub proof fn lemma_rendered(scope: Scope, w: Written)
    requires
        relexing::is_plain(scope, w),
    ensures
        no_instruction(writer::rendered(w)),
        writer::rendered(w).len() > 0,
        writer::rendered(w)[0] == '<',
        writer::rendered(w).last() == '>',
    decreases w,
{
    lemma_tags(w);
    lemma_escaped_text(w.text);
    lemma_rendered_all(relexing::inner_scope(scope, w), w.children);
    let start = writer::start_tag(w);
    let data = xml::escaped_text(w.text);
    let inside = writer::rendered_all(w.children);
    assert(no_instruction(data)) by {
        assert(no_markup(data));
    }
    lemma_no_instruction_join(start, data);
    lemma_no_instruction_join(start + data, inside);
    lemma_no_instruction_join(start + data + inside, writer::end_tag(w.name));
    assert(start[0] == '<');
    assert(writer::end_tag(w.name).last() == '>');
}

/// Elements in their written form hold no instructions.
proof fn lemma_rendered_all(scope: Scope, s: Seq<Written>)
    requires
        relexing::are_plain(scope, s),
    ensures
        no_instruction(writer::rendered_all(s)),
    decreases s,
{
    if s.len() > 0 {
        lemma_rendered(scope, s[0]);
        lemma_rendered_all(scope, s.drop_first());
        lemma_no_instruction_join(
            writer::rendered(s[0]),
            writer::rendered_all(s.drop_first()),
        );
    }
}

// ---------------------------------------------------------------------------------------------
// Bytes without instructions
// ---------------------------------------------------------------------------------------------

/// A text falls apart at an ASCII byte.
pub proof fn lemma_ascii_split(text: Seq<char>, j: int)
    requires
        0 <= j < encode_utf8(text).len(),
        encode_utf8(text)[j] < 0x80,
    ensures
        ({
            let b = encode_utf8(text);
            let before = decode_utf8(b.subrange(0, j));
            &&& text == before + seq![b[j] as char] + decode_utf8(
                b.subrange(j + 1, b.len() as int),
            )
            &&& decode_utf8(b.subrange(0, j + 1)) == before + seq![b[j] as char]
        }),
{
    let b = encode_utf8(text);
    let c = b[j] as char;
    let one = seq![c];
    text::lemma_text_bytes(text);
    text::lemma_ascii_boundaries(b, j);
    valid_utf8_split(b, j);
    valid_utf8_split(b, j + 1);
    let before = b.subrange(0, j);
    let after = b.subrange(j + 1, b.len() as int);
    assert(is_ascii_chars(one));
    text::lemma_ascii_bytes(one);
    text::lemma_text_bytes(one);
    assert(encode_utf8(one) =~= seq![b[j]]);
    text::lemma_decode_concat(before, encode_utf8(one));
    assert(b.subrange(0, j + 1) =~= before + encode_utf8(one));
    text::lemma_decode_concat(before + encode_utf8(one), after);
    assert(b =~= before + encode_utf8(one) + after);
}

/// The bytes of a text without instructions hold none.
pub proof fn lemma_no_instruction_bytes(text: Seq<char>, j: int)
    requires
        no_instruction(text),
        0 <= j < encode_utf8(text).len() - 1,
    ensures
        !(encode_utf8(text)[j] == 0x3C && encode_utf8(text)[j + 1] == 0x3F),
{
    let b = encode_utf8(text);
    if b[j] == 0x3C && b[j + 1] == 0x3F {
        lemma_ascii_split(text, j);
        lemma_ascii_split(text, j + 1);
        let n = decode_utf8(b.subrange(0, j)).len() as int;
        assert(text[n] == '<');
        assert(text[n + 1] == '?');
    }
}

// ---------------------------------------------------------------------------------------------
// The envelope
// ---------------------------------------------------------------------------------------------

/// The mark that begins an instruction of a packet.
pub open spec fn mark() -> Seq<u8> {
    encode_utf8("<?xpacket"@)
}

/// The bytes of the mark that ends an instruction.
spec fn closing() -> Seq<u8> {
    encode_utf8("?>"@)
}

/// The marks of an instruction.
pub proof fn lemma_marks()
    ensures
        encode_utf8("<?xpacket"@) == seq![
            0x3Cu8,
            0x3F,
            0x78,
            0x70,
            0x61,
            0x63,
            0x6B,
            0x65,
            0x74,
        ],
        encode_utf8("?>"@) == seq![0x3Fu8, 0x3E],
{
    reveal_strlit("<?xpacket");
    reveal_strlit("?>");
    text::lemma_ascii_bytes("<?xpacket"@);
    text::lemma_ascii_bytes("?>"@);
    assert(encode_utf8("<?xpacket"@) =~= seq![
        0x3Cu8,
        0x3F,
        0x78,
        0x70,
        0x61,
        0x63,
        0x6B,
        0x65,
        0x74,
    ]);
    assert(encode_utf8("?>"@) =~= seq![0x3Fu8, 0x3E]);
}

/// The first occurrence at or after `from` is the one at `at`, if there is none before it.
pub proof fn lemma_first(haystack: Seq<u8>, needle: Seq<u8>, from: int, at: int)
    requires
        0 <= from <= at,
        text::occurs_at(haystack, needle, at),
        forall|j: int| from <= j < at ==> !#[trigger] text::occurs_at(haystack, needle, j),
    ensures
        text::find_from(haystack, needle, from) == Some(at),
{
    text::lemma_find_from(haystack, needle, from);
}

/// An occurrence in a part of some bytes is one in the whole, and the other way round.
proof fn lemma_occurs(a: Seq<u8>, b: Seq<u8>, c: Seq<u8>, needle: Seq<u8>, j: int)
    requires
        0 <= j,
        j + needle.len() <= b.len(),
    ensures
        text::occurs_at(a + b + c, needle, a.len() + j) == text::occurs_at(b, needle, j),
{
    let whole = a + b + c;
    let at = a.len() as int + j;
    assert(whole.subrange(at, at + needle.len()) =~= b.subrange(j, j + needle.len()));
}

/// Whether no mark begins in some bytes that a mark follows.
pub open spec fn is_unmarked(m: Seq<u8>) -> bool {
    forall|j: int| 0 <= j < m.len() ==> !#[trigger] text::occurs_at(m + mark(), mark(), j)
}

/// Whether no mark stands in some bytes.
pub open spec fn is_clean(m: Seq<u8>) -> bool {
    forall|j: int| !#[trigger] text::occurs_at(m, mark(), j)
}

/// An occurrence of the mark depends on its nine bytes alone.
pub proof fn lemma_mark_moves(a: Seq<u8>, i: int, b: Seq<u8>, j: int)
    requires
        text::occurs_at(a, mark(), i),
        0 <= j,
        j + 9 <= b.len(),
        forall|k: int| 0 <= k < 9 ==> a[i + k] == #[trigger] b[j + k],
    ensures
        text::occurs_at(b, mark(), j),
{
    lemma_marks();
    let part = b.subrange(j, j + 9);
    assert forall|k: int| 0 <= k < 9 implies #[trigger] part[k] == a.subrange(i, i + 9)[k] by {
        assert(part[k] == b[j + k]);
    }
    assert(part =~= a.subrange(i, i + 9));
}

/// The bytes of an occurrence of the mark are those of the mark.
pub proof fn lemma_mark_bytes(a: Seq<u8>, i: int)
    requires
        text::occurs_at(a, mark(), i),
    ensures
        mark().len() == 9,
        i + 9 <= a.len(),
        a[i] == 0x3C && a[i + 1] == 0x3F,
        forall|k: int| #![trigger a[i + k]] 0 <= k < 9 ==> a[i + k] == mark()[k],
        forall|k: int|
            i <= k < i + 9 ==> #[trigger] a[k] != 0x3E && a[k] != 0x2F && !text::is_space_byte(a[k]),
        forall|k: int| i < k < i + 9 ==> #[trigger] a[k] != 0x3C,
{
    lemma_marks();
    let part = a.subrange(i, i + 9);
    assert forall|k: int| #![trigger a[i + k]] 0 <= k < 9 implies a[i + k] == mark()[k] by {
        assert(part[k] == a[i + k]);
    }
    assert(part[0] == a[i] && part[1] == a[i + 1]);
    assert forall|k: int| i <= k < i + 9 implies #[trigger] a[k] != 0x3E && a[k] != 0x2F
        && !text::is_space_byte(a[k]) by {
        assert(part[k - i] == a[k]);
    }
    assert forall|k: int| i < k < i + 9 implies #[trigger] a[k] != 0x3C by {
        assert(part[k - i] == a[k]);
    }
}

/// No mark begins between what stands before some bytes and the mark that follows them.
pub proof fn lemma_unmarked_between(h: Seq<u8>, m: Seq<u8>, t: Seq<u8>)
    requires
        is_unmarked(m),
        text::occurs_at(t, mark(), 0),
    ensures
        forall|j: int|
            h.len() <= j < h.len() + m.len() ==> !#[trigger] text::occurs_at(
                h + m + t,
                mark(),
                j,
            ),
{
    let all = h + m + t;
    let joined = m + mark();
    lemma_mark_bytes(t, 0);
    assert forall|j: int| h.len() <= j < h.len() + m.len() implies !#[trigger] text::occurs_at(
        all,
        mark(),
        j,
    ) by {
        if text::occurs_at(all, mark(), j) {
            let at = j - h.len();
            assert forall|k: int| 0 <= k < 9 implies all[j + k] == #[trigger] joined[at + k] by {
                if at + k >= m.len() {
                    assert(t[0 + (at + k - m.len())] == mark()[at + k - m.len()]);
                }
            }
            lemma_mark_moves(all, j, joined, at);
        }
    }
}

/// A packet that is put together from an opening part, a middle in which no mark begins and a
/// closing part splits where it was put together.
pub proof fn lemma_resplit_parts(h: Seq<u8>, m: Seq<u8>, t: Seq<u8>, header: int)
    requires
        text::find_from(h, mark(), 0) == Some(header),
        text::find_from(h, encode_utf8("?>"@), header) == Some(h.len() - 2),
        forall|j: int|
            h.len() <= j < h.len() + m.len() ==> !#[trigger] text::occurs_at(
                h + m + t,
                mark(),
                j,
            ),
        t.len() == 0 || text::occurs_at(t, mark(), 0),
    ensures
        ({
            let end = match text::find_from(t, encode_utf8("?>"@), 0) {
                Some(e) => e + 2,
                None => t.len() as int,
            };
            let middle = h.len() + m.len();
            packet::split(h + m + t) == Ok::<SplitPacket, ErrorView>(
                SplitPacket {
                    header: Some(packet::span(header, h.len() as int)),
                    body: packet::span(h.len() as int, middle as int),
                    trailer: if t.len() == 0 {
                        None
                    } else {
                        Some(packet::span(middle as int, middle + end))
                    },
                    writable: t.len() > 0 && packet::asks_writable(t.subrange(0, end)),
                },
            )
        }),
{
    let b = h + m + t;
    let none = Seq::<u8>::empty();
    let start = h.len() as int;
    let middle = start + m.len();
    lemma_marks();
    text::lemma_find_from(h, mark(), 0);
    text::lemma_find_from(h, closing(), header);
    // The opening instruction lies in the opening part.
    assert(header + 9 <= h.len());
    assert(b =~= none + h + (m + t));
    assert forall|j: int| 0 <= j <= header implies #[trigger] text::occurs_at(b, mark(), j)
        == text::occurs_at(h, mark(), j) by {
        lemma_occurs(none, h, m + t, mark(), j);
    }
    lemma_first(b, mark(), 0, header);
    assert forall|j: int| header <= j <= start - 2 implies #[trigger] text::occurs_at(
        b,
        closing(),
        j,
    ) == text::occurs_at(h, closing(), j) by {
        lemma_occurs(none, h, m + t, closing(), j);
    }
    lemma_first(b, closing(), header, start - 2);
    if t.len() == 0 {
        text::lemma_find_from(b, mark(), start);
        assert(b.len() == middle);
    } else {
        assert(b =~= (h + m) + t + none);
        lemma_occurs(h + m, t, none, mark(), 0);
        lemma_first(b, mark(), start, middle);
        text::lemma_find_from(t, closing(), 0);
        text::lemma_find_from(b, closing(), middle);
        assert forall|j: int| 0 <= j && j + 2 <= t.len() implies #[trigger] text::occurs_at(
            b,
            closing(),
            middle + j,
        ) == text::occurs_at(t, closing(), j) by {
            lemma_occurs(h + m, t, none, closing(), j);
        }
        match text::find_from(t, closing(), 0) {
            Some(e) => {
                assert(text::occurs_at(b, closing(), middle + e));
                assert forall|j: int| middle <= j < middle + e implies !#[trigger] text::occurs_at(
                    b,
                    closing(),
                    j,
                ) by {
                    assert(text::occurs_at(b, closing(), middle + (j - middle)) == text::occurs_at(
                        t,
                        closing(),
                        j - middle,
                    ));
                }
                lemma_first(b, closing(), middle, middle + e);
                assert(b.subrange(middle, middle + e + 2) =~= t.subrange(0, e + 2));
            },
            None => {
                if let Some(at) = text::find_from(b, closing(), middle) {
                    assert(text::occurs_at(b, closing(), middle + (at - middle))
                        == text::occurs_at(t, closing(), at - middle));
                }
                assert(b.subrange(middle, b.len() as int) =~= t.subrange(0, t.len() as int));
            },
        }
    }
}

/// A packet that is put together from an opening part, a middle without instructions and a closing
/// part splits where it was put together.
pub proof fn lemma_resplit(h: Seq<u8>, m: Seq<u8>, t: Seq<u8>, header: int)
    requires
        text::find_from(h, encode_utf8("<?xpacket"@), 0) == Some(header),
        text::find_from(h, encode_utf8("?>"@), header) == Some(h.len() - 2),
        forall|j: int| 0 <= j < m.len() - 1 ==> !(#[trigger] m[j] == 0x3C && m[j + 1] == 0x3F),
        t.len() == 0 || text::occurs_at(t, encode_utf8("<?xpacket"@), 0),
    ensures
        ({
            let end = match text::find_from(t, encode_utf8("?>"@), 0) {
                Some(e) => e + 2,
                None => t.len() as int,
            };
            let middle = h.len() + m.len();
            packet::split(h + m + t) == Ok::<SplitPacket, ErrorView>(
                SplitPacket {
                    header: Some(packet::span(header, h.len() as int)),
                    body: packet::span(h.len() as int, middle as int),
                    trailer: if t.len() == 0 {
                        None
                    } else {
                        Some(packet::span(middle as int, middle + end))
                    },
                    writable: t.len() > 0 && packet::asks_writable(t.subrange(0, end)),
                },
            )
        }),
{
    let b = h + m + t;
    let start = h.len() as int;
    let middle = start + m.len();
    lemma_marks();
    // No instruction begins in the middle.
    assert forall|j: int| start <= j < middle implies !#[trigger] text::occurs_at(
        b,
        mark(),
        j,
    ) by {
        if text::occurs_at(b, mark(), j) {
            let part = b.subrange(j, j + 9);
            assert(part[0] == b[j] && part[1] == b[j + 1]);
            assert(m[j - start] == b[j]);
            if j + 1 < middle {
                assert(m[j - start + 1] == b[j + 1]);
            } else {
                assert(b[j + 1] == t[0]);
                assert(t.subrange(0, 9)[0] == t[0]);
            }
        }
    }
    lemma_resplit_parts(h, m, t, header);
}

/// White space around a text is trimmed off.
pub proof fn lemma_trimmed(lead: Seq<char>, body: Seq<char>, tail: Seq<char>)
    requires
        forall|i: int| 0 <= i < lead.len() ==> text::is_white_char(#[trigger] lead[i]),
        forall|i: int| 0 <= i < tail.len() ==> text::is_white_char(#[trigger] tail[i]),
        body.len() > 0,
        !text::is_white_char(body[0]),
        !text::is_white_char(body.last()),
    ensures
        text::skip_white(lead + body + tail, 0) == lead.len(),
        text::trimmed_text(lead + body + tail) == body,
{
    let whole = lead + body + tail;
    let end = lead.len() as int + body.len();
    lemma_skip_white(whole, 0, lead.len() as int);
    lemma_trimmed_end(whole, lead.len() as int, end, whole.len() as int);
    assert(whole.subrange(lead.len() as int, end) =~= body);
}

proof fn lemma_skip_white(chars: Seq<char>, from: int, to: int)
    requires
        0 <= from <= to < chars.len(),
        forall|i: int| from <= i < to ==> text::is_white_char(#[trigger] chars[i]),
        !text::is_white_char(chars[to]),
    ensures
        text::skip_white(chars, from) == to,
    decreases to - from,
{
    if from < to {
        lemma_skip_white(chars, from + 1, to);
    }
}

proof fn lemma_trimmed_end(chars: Seq<char>, start: int, to: int, end: int)
    requires
        0 <= start < to <= end <= chars.len(),
        forall|i: int| to <= i < end ==> text::is_white_char(#[trigger] chars[i]),
        !text::is_white_char(chars[to - 1]),
    ensures
        text::white_trimmed_end(chars, start, end) == to,
    decreases end - to,
{
    if to < end {
        lemma_trimmed_end(chars, start, to, end - 1);
    }
}

/// ASCII white space at the end of bytes is counted as padding.
pub proof fn lemma_padding(bytes: Seq<u8>, to: int, end: int)
    requires
        0 < to <= end <= bytes.len(),
        forall|i: int| to <= i < end ==> text::is_space_byte(#[trigger] bytes[i]),
        !text::is_space_byte(bytes[to - 1]),
    ensures
        text::space_trimmed_end(bytes, end) == to,
    decreases end - to,
{
    if to < end {
        lemma_padding(bytes, to, end - 1);
    }
}

/// The canonical opening instruction is one.
#[verifier::spinoff_prover]
#[verifier::rlimit(40)]
pub proof fn lemma_canonical_header()
    ensures
        text::find_from(
            encode_utf8(repair::canonical_header()),
            encode_utf8("<?xpacket"@),
            0,
        ) == Some(0int),
        text::find_from(encode_utf8(repair::canonical_header()), encode_utf8("?>"@), 0) == Some(
            encode_utf8(repair::canonical_header()).len() - 2,
        ),
        repair::canonical_header().len() > 2,
        repair::canonical_header()[0] == '<',
        repair::canonical_header()[1] == '?',
{
    let head = repair::canonical_header();
    let h = encode_utf8(head);
    lemma_marks();
    reveal_strlit("<?xpacket begin='");
    reveal_strlit("\u{FEFF}");
    reveal_strlit("' id='");
    reveal_strlit("W5M0MpCehiHzreSzNTczkc9d");
    reveal_strlit("'?>");
    reveal_strlit("<?xpacket");
    reveal_strlit("?>");
    assert("<?xpacket begin='"@.len() == 17 && CANONICAL_BEGIN@.len() == 1 && "' id='"@.len() == 6
        && CANONICAL_PACKET_ID@.len() == 24 && "'?>"@.len() == 3);
    let rest = head.skip(9);
    assert(head =~= "<?xpacket"@ + rest);
    text::lemma_encode_concat("<?xpacket"@, rest);
    assert(h.subrange(0, 9) =~= mark());
    lemma_first(h, mark(), 0, 0);
    let front = head.take(49);
    assert(head =~= front + "?>"@);
    text::lemma_encode_concat(front, "?>"@);
    assert(h.subrange(h.len() - 2, h.len() as int) =~= closing());
    assert forall|j: int| 0 <= j < h.len() - 2 implies !#[trigger] text::occurs_at(
        h,
        closing(),
        j,
    ) by {
        if text::occurs_at(h, closing(), j) {
            let part = h.subrange(j, j + 2);
            assert(part[0] == h[j] && part[1] == h[j + 1]);
            lemma_ascii_split(head, j);
            lemma_ascii_split(head, j + 1);
            let n = decode_utf8(h.subrange(0, j)).len() as int;
            assert(head[n] == '?');
            assert(head[n + 1] == '>');
            assert(n == 49);
            let after = h.subrange(j + 2, h.len() as int);
            assert(decode_utf8(after).len() == 0);
            text::lemma_text_bytes(head);
            text::lemma_ascii_boundaries(h, j + 1);
            valid_utf8_split(h, j + 2);
            decode_utf8_encode_utf8(after);
            assert(encode_utf8(decode_utf8(after)) =~= Seq::<u8>::empty());
        }
    }
    lemma_first(h, closing(), 0, h.len() - 2);
}

/// The canonical closing instruction is one, and asks for what it was made for.
pub proof fn lemma_canonical_trailer(writable: bool)
    ensures
        ({
            let t = encode_utf8(repair::canonical_trailer(writable));
            &&& t.len() > 2
            &&& text::occurs_at(t, encode_utf8("<?xpacket"@), 0)
            &&& text::find_from(t, encode_utf8("?>"@), 0) == Some(t.len() - 2)
            &&& packet::asks_writable(t) == writable
        }),
{
    reveal(packet::asks_writable);
    let tail = repair::canonical_trailer(writable);
    let t = encode_utf8(tail);
    lemma_marks();
    reveal_strlit("<?xpacket end='w'?>");
    reveal_strlit("<?xpacket end='r'?>");
    reveal_strlit("<?xpacket");
    reveal_strlit("end");
    reveal_strlit("w");
    text::lemma_ascii_bytes(tail);
    text::lemma_ascii_bytes("end"@);
    text::lemma_ascii_bytes("w"@);
    assert(tail.len() == 19);
    assert(t.subrange(0, 9) =~= mark());
    assert(t.subrange(17, 19) =~= closing());
    assert forall|j: int| 0 <= j < 17 implies !#[trigger] text::occurs_at(t, closing(), j) by {
        if text::occurs_at(t, closing(), j) {
            let part = t.subrange(j, j + 2);
            assert(part[0] == t[j] && part[1] == t[j + 1]);
            assert(tail[j] == '?' && tail[j + 1] == '>');
        }
    }
    lemma_first(t, closing(), 0, 17);
    assert(tail[9] == ' ' && tail[10] == 'e' && tail[11] == 'n' && tail[12] == 'd');
    assert(tail[13] == '=' && tail[14] == '\'' && tail[16] == '\'');
    packet::lemma_scan_stops(t, 9, ByteClass::NonSpace, 10);
    packet::lemma_scan_stops(t, 10, ByteClass::AttributeNameEnd, 13);
    packet::lemma_scan_stops(t, 13, ByteClass::NonSpace, 13);
    packet::lemma_scan_stops(t, 14, ByteClass::NonSpace, 14);
    packet::lemma_scan_stops(t, 15, ByteClass::Exactly(0x27), 16);
    assert(t.subrange(10, 13) =~= encode_utf8("end"@));
    assert(t.subrange(15, 16)[0] == t[15]);
    assert("w"@.len() == 1 && "w"@[0] == 'w');
    packet::lemma_scan_stops(t, 17, ByteClass::NonSpace, 17);
    assert(!packet::holds_attribute(t, 17, encode_utf8("end"@), encode_utf8("w"@)));
    if writable {
        assert(t.subrange(15, 16) =~= encode_utf8("w"@));
    } else {
        assert(encode_utf8("w"@)[0] == 0x77);
        assert(tail[15] == 'r');
    }
}

/// What a scan finds in a canonical packet around a body and white space.
pub proof fn lemma_canonical_packet(body: Seq<char>, padding: nat, writable: bool)
    requires
        no_instruction(body),
        body.len() > 0,
        body[0] == '<',
        body.last() == '>',
        encode_utf8(
            repair::canonical_header() + body + Seq::new(padding, |i: int| ' ')
                + repair::canonical_trailer(writable),
        ).len() <= usize::MAX,
    ensures
        ({
            let bytes = encode_utf8(
                repair::canonical_header() + body + Seq::new(padding, |i: int| ' ')
                    + repair::canonical_trailer(writable),
            );
            &&& packet::scanned(bytes) matches Ok(d)
            &&& d.encoding == XmpEncoding::Utf8
            &&& !d.had_bom
            &&& d.packet == (packet::PacketView { body, writable, padding: padding as usize })
            &&& decode_utf8(packet::span_bytes(d.bytes(), d.envelope.content)) == body
        }),
{
    let head = repair::canonical_header();
    let spaces = Seq::new(padding, |i: int| ' ');
    let tail = repair::canonical_trailer(writable);
    let whole = head + body + spaces + tail;
    let h = encode_utf8(head);
    let b = encode_utf8(body);
    let p = encode_utf8(spaces);
    let t = encode_utf8(tail);
    let m = b + p;
    let bytes = encode_utf8(whole);
    let exact = body + spaces;
    text::lemma_encode_concat(body, spaces);
    text::lemma_encode_concat(head + body + spaces, tail);
    text::lemma_encode_concat(head + body, spaces);
    text::lemma_encode_concat(head, body);
    assert(bytes =~= h + m + t);
    text::lemma_text_bytes(exact);
    text::lemma_text_bytes(body);
    // The text is found again.
    lemma_canonical_header();
    lemma_canonical_trailer(writable);
    encoding::law_packet_round_trip(whole, XmpEncoding::Utf8, false);
    assert(whole[0] == '<' && whole[1] == '?');
    assert(encoding::encoded_packet(whole, XmpEncoding::Utf8, false) == bytes);
    // It falls apart where it was put together.
    assert(no_instruction(spaces));
    lemma_no_instruction_join(body, spaces);
    assert forall|j: int| 0 <= j < m.len() - 1 implies !(#[trigger] m[j] == 0x3C && m[j + 1]
        == 0x3F) by {
        lemma_no_instruction_bytes(exact, j);
    }
    lemma_resplit(h, m, t, 0);
    let s = packet::split(bytes)->Ok_0;
    assert(t.subrange(0, t.len() as int) =~= t);
    assert(s.writable == writable);
    assert(packet::span_bytes(bytes, s.body) =~= m);
    // White space is not part of the body.
    let none = Seq::<char>::empty();
    lemma_trimmed(none, body, spaces);
    assert(none + body + spaces =~= exact);
    assert(exact.take(0) =~= none);
    assert(encode_utf8(none) =~= Seq::<u8>::empty());
    assert(is_ascii_chars(spaces));
    text::lemma_ascii_bytes(spaces);
    let front = body.drop_last();
    assert(body =~= front + seq!['>']);
    text::lemma_encode_concat(front, seq!['>']);
    assert(is_ascii_chars(seq!['>']));
    text::lemma_ascii_bytes(seq!['>']);
    assert(b.last() == 0x3E);
    lemma_padding(m, b.len() as int, m.len() as int);
    let d = packet::scanned(bytes)->Ok_0;
    assert(d == packet::enclosed(XmpEncoding::Utf8, false, whole, s));
    assert(packet::span_bytes(bytes, d.envelope.content) =~= b);
}

/// What a scan finds in a body by itself.
pub proof fn lemma_bare_body(body: Seq<char>)
    requires
        no_instruction(body),
        body.len() > 1,
        body[0] == '<',
        body[1] != '\0',
        body.last() == '>',
        encode_utf8(body).len() <= usize::MAX,
    ensures
        packet::scanned(encode_utf8(body)) matches Ok(d) && {
            &&& d.encoding == XmpEncoding::Utf8
            &&& !d.had_bom
            &&& d.packet == (packet::PacketView { body, writable: false, padding: 0 })
            &&& decode_utf8(packet::span_bytes(d.bytes(), d.envelope.content)) == body
        },
{
    let bytes = encode_utf8(body);
    let none = Seq::<char>::empty();
    text::lemma_text_bytes(body);
    lemma_marks();
    encoding::law_packet_round_trip(body, XmpEncoding::Utf8, false);
    assert(encoding::encoded_packet(body, XmpEncoding::Utf8, false) == bytes);
    text::lemma_find_from(bytes, mark(), 0);
    if let Some(j) = text::find_from(bytes, mark(), 0) {
        let part = bytes.subrange(j, j + 9);
        assert(part[0] == bytes[j] && part[1] == bytes[j + 1]);
        lemma_no_instruction_bytes(body, j);
    }
    lemma_trimmed(none, body, none);
    assert(none + body + none =~= body);
    assert(body.take(0) =~= none);
    assert(encode_utf8(none) =~= Seq::<u8>::empty());
    assert(bytes.subrange(0, bytes.len() as int) =~= bytes);
}

} // verus!
