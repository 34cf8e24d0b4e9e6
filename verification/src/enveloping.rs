//! Where the parts of a packet lie, and what its instructions say.

use vstd::prelude::*;
use vstd::string::*;
use vstd::utf8::*;

use crate::encoding;
use crate::encoding::XmpEncoding;
use crate::error::ErrorView;
use crate::headers;
use crate::headers::HeaderAttribute;
use crate::packet;
use crate::repair;
use crate::text;
use crate::text::ByteClass;

verus! {

// ---------------------------------------------------------------------------------------------
// The instructions
// ---------------------------------------------------------------------------------------------

/// The bytes that a packet instruction begins with.
pub open spec fn opening() -> Seq<u8> {
    encode_utf8("<?xpacket"@)
}

/// The bytes that an instruction ends with.
pub open spec fn closing() -> Seq<u8> {
    encode_utf8("?>"@)
}

/// Whether some bytes stand in others at an index.
pub open spec fn stands_at(b: Seq<u8>, part: Seq<u8>, at: int) -> bool {
    0 <= at && at + part.len() <= b.len() && b.subrange(at, at + part.len()) == part
}

/// Whether some bytes stand in others at an index, and nowhere between an earlier one and it.
pub open spec fn first_stands_at(b: Seq<u8>, part: Seq<u8>, from: int, at: int) -> bool {
    &&& from <= at
    &&& stands_at(b, part, at)
    &&& forall|j: int| from <= j < at ==> !#[trigger] stands_at(b, part, j)
}

/// Whether some bytes stand nowhere in others from an index on.
pub open spec fn stands_nowhere(b: Seq<u8>, part: Seq<u8>, from: int) -> bool {
    forall|j: int| from <= j ==> !#[trigger] stands_at(b, part, j)
}

proof fn lemma_search(b: Seq<u8>, part: Seq<u8>, from: int)
    requires
        0 <= from,
    ensures
        match text::find_from(b, part, from) {
            Some(at) => first_stands_at(b, part, from, at),
            None => stands_nowhere(b, part, from),
        },
{
    text::lemma_find_from(b, part, from);
    assert forall|j: int| text::occurs_at(b, part, j) == #[trigger] stands_at(b, part, j) by {}
    match text::find_from(b, part, from) {
        Some(at) => {
            assert(text::occurs_at(b, part, at));
            assert forall|j: int| from <= j < at implies !#[trigger] stands_at(b, part, j) by {
                assert(!text::occurs_at(b, part, j));
            }
        },
        None => {
            assert forall|j: int| from <= j implies !#[trigger] stands_at(b, part, j) by {
                assert(!text::occurs_at(b, part, j));
            }
        },
    }
}

/// The header of a packet is its first packet instruction up to the first `?>`, and the trailer the
/// next packet instruction up to the first `?>` or the end. The body is all that lies between them,
/// up to the end where there is no trailer, and everything where there is no header. Only a header
/// that does not end is refused.
pub proof fn law_packets_are_split_at_their_instructions(b: Seq<u8>)
    requires
        b.len() <= usize::MAX,
    ensures
        match packet::split(b) {
            Ok(s) => match s.header {
                None => {
                    &&& stands_nowhere(b, opening(), 0)
                    &&& s.body.start == 0
                    &&& s.body.end == b.len()
                    &&& s.trailer is None
                    &&& !s.writable
                },
                Some(header) => {
                    &&& first_stands_at(b, opening(), 0, header.start as int)
                    &&& first_stands_at(b, closing(), header.start as int, header.end - 2)
                    &&& s.body.start == header.end
                    &&& match s.trailer {
                        None => stands_nowhere(b, opening(), header.end as int) && s.body.end
                            == b.len() && !s.writable,
                        Some(trailer) => {
                            &&& first_stands_at(
                                b,
                                opening(),
                                header.end as int,
                                trailer.start as int,
                            )
                            &&& s.body.end == trailer.start
                            &&& first_stands_at(
                                b,
                                closing(),
                                trailer.start as int,
                                trailer.end - 2,
                            ) || (stands_nowhere(b, closing(), trailer.start as int) && trailer.end
                                == b.len())
                            &&& s.writable == packet::asks_writable(
                                b.subrange(trailer.start as int, trailer.end as int),
                            )
                        },
                    }
                },
            },
            Err(_) => exists|at: int|
                #[trigger] first_stands_at(b, opening(), 0, at) && stands_nowhere(b, closing(), at),
        },
{
    packet::lemma_instruction_end();
    lemma_search(b, opening(), 0);
    if let Some(header) = text::find_from(b, opening(), 0) {
        lemma_search(b, closing(), header);
        if let Some(close) = text::find_from(b, closing(), header) {
            lemma_search(b, opening(), close + 2);
            if let Some(trailer) = text::find_from(b, opening(), close + 2) {
                lemma_search(b, closing(), trailer);
            }
        } else {
            assert(first_stands_at(b, opening(), 0, header));
        }
    }
}

// ---------------------------------------------------------------------------------------------
// Content and padding
// ---------------------------------------------------------------------------------------------

/// Whether all of some characters are white space.
pub open spec fn is_white(s: Seq<char>) -> bool {
    forall|i: int| 0 <= i < s.len() ==> text::is_white_char(#[trigger] s[i])
}

/// Whether all of some bytes are ASCII white space.
pub open spec fn is_space(s: Seq<u8>) -> bool {
    forall|i: int|
        0 <= i < s.len() ==> (#[trigger] s[i]) == 0x09 || s[i] == 0x0A || s[i] == 0x0C || s[i]
            == 0x0D || s[i] == 0x20
}

/// The content of a packet is its body but for the white space around it: what was taken for the
/// body begins with white space, then holds the content, which neither begins nor ends with any, and
/// ends with white space. The padding of a packet with instructions is all the ASCII white space at
/// the end of its body, and a bare packet has none.
pub proof fn law_content_and_padding_fill_the_body(bytes: Seq<u8>)
    requires
        packet::scanned(bytes) matches Ok(d) && d.bytes().len() <= usize::MAX,
    ensures
        packet::scanned(bytes) matches Ok(d) && {
            let body = packet::span_bytes(d.bytes(), d.envelope.body);
            let content = d.packet.body;
            &&& exists|before: Seq<char>, after: Seq<char>|
                {
                    &&& decode_utf8(body) == #[trigger] (before + content + after)
                    &&& is_white(before)
                    &&& is_white(after)
                    &&& d.envelope.content.start == d.envelope.body.start + encode_utf8(
                        before,
                    ).len()
                }
            &&& content.len() > 0 ==> !text::is_white_char(content[0]) && !text::is_white_char(
                content.last(),
            )
            &&& d.envelope.content.end == d.envelope.content.start + encode_utf8(content).len()
            &&& d.envelope.header is None ==> d.packet.padding == 0
            &&& d.envelope.header is Some ==> {
                let kept = body.len() - d.packet.padding;
                &&& 0 <= kept
                &&& is_space(body.subrange(kept, body.len() as int))
                &&& kept > 0 ==> !is_space(seq![body[kept - 1]])
            }
        },
{
    packet::law_scanned_spans_slice_the_text(bytes);
    let d = packet::scanned(bytes)->Ok_0;
    let body = packet::span_bytes(d.bytes(), d.envelope.body);
    let exact = decode_utf8(body);
    let start = text::skip_white(exact, 0);
    let end = text::white_trimmed_end(exact, start, exact.len() as int);
    text::law_trimming_drops_white_space_only(exact);
    text::lemma_trimmed_ends(exact);
    let before = exact.take(start);
    let after = exact.skip(end);
    assert(exact =~= before + d.packet.body + after);
    assert forall|i: int| 0 <= i < before.len() implies text::is_white_char(
        #[trigger] before[i],
    ) by {
        assert(before[i] == exact[i]);
    }
    assert forall|i: int| 0 <= i < after.len() implies text::is_white_char(
        #[trigger] after[i],
    ) by {
        assert(after[i] == exact[end + i]);
    }
    if d.packet.body.len() > 0 {
        assert(d.packet.body[0] == exact[start]);
        assert(d.packet.body.last() == exact[end - 1]);
    }
    text::lemma_text_bytes(d.decoded);
    text::lemma_boundary_within(
        d.bytes(),
        d.envelope.body.start as int,
        d.envelope.body.start as int,
        d.envelope.body.end as int,
    );
    decode_utf8_encode_utf8(body);
    text::lemma_encode_concat(before + d.packet.body, after);
    text::lemma_encode_concat(before, d.packet.body);
    text::lemma_space_trimmed_end(body, body.len() as int);
    if d.envelope.header is Some {
        let kept = text::space_trimmed_end(body, body.len() as int);
        let tail = body.subrange(kept, body.len() as int);
        assert forall|i: int| 0 <= i < tail.len() implies (#[trigger] tail[i]) == 0x09 || tail[i]
            == 0x0A || tail[i] == 0x0C || tail[i] == 0x0D || tail[i] == 0x20 by {
            assert(tail[i] == body[kept + i]);
            assert(text::is_space_byte(body[kept + i]));
        }
        if kept > 0 {
            assert(seq![body[kept - 1]][0] == body[kept - 1]);
        }
    }
}

// ---------------------------------------------------------------------------------------------
// What instructions say
// ---------------------------------------------------------------------------------------------

/// Whether one of some attributes has the given name and value.
pub open spec fn has_attribute(
    s: Seq<HeaderAttribute>,
    name: Seq<char>,
    value: Seq<char>,
) -> bool {
    exists|i: int| 0 <= i < s.len() && (#[trigger] s[i]).name == name && s[i].value == value
}

/// An instruction of attributes holds an attribute just where one of them has the name and the
/// value, whatever the others are and wherever it stands.
proof fn lemma_held(
    front: Seq<u8>,
    s: Seq<HeaderAttribute>,
    end: Seq<char>,
    name: Seq<char>,
    value: Seq<char>,
)
    requires
        forall|i: int| 0 <= i < s.len() ==> headers::is_attribute(#[trigger] s[i]),
        headers::is_spaces(end),
    ensures
        packet::holds_attribute(
            front + encode_utf8(headers::attributes_text(s) + (end + "?>"@)),
            front.len() as int,
            encode_utf8(name),
            encode_utf8(value),
        ) == has_attribute(s, name, value),
    decreases s.len(),
{
    let tail = end + "?>"@;
    let b = front + encode_utf8(headers::attributes_text(s) + tail);
    packet::lemma_instruction_end();
    text::lemma_encode_concat(end, "?>"@);
    if s.len() == 0 {
        assert(headers::attributes_text(s) + tail =~= tail);
        headers::lemma_space_bytes(end);
        let spaces = encode_utf8(end);
        let at = front.len() as int + spaces.len() as int;
        assert forall|i: int| front.len() <= i < at implies text::is_space_byte(
            #[trigger] b[i],
        ) by {
            assert(b[i] == spaces[i - front.len()]);
        }
        assert(b[at] == 0x3F);
        packet::lemma_scan_stops(b, front.len() as int, ByteClass::NonSpace, at);
        assert(b.subrange(at, at + 2) =~= encode_utf8("?>"@));
        assert(packet::header_step(b, front.len() as int) is End);
    } else {
        let rest = headers::attributes_text(s.drop_first()) + tail;
        let one = encode_utf8(headers::attribute_text(s[0]));
        assert(headers::attributes_text(s) + tail =~= headers::attribute_text(s[0]) + rest);
        text::lemma_encode_concat(headers::attribute_text(s[0]), rest);
        assert(b =~= (front + one) + encode_utf8(rest));
        assert(headers::is_attribute(s[0]));
        headers::lemma_step(front, s[0], encode_utf8(rest));
        packet::lemma_header_step(b, front.len() as int);
        let others = s.drop_first();
        assert forall|i: int| 0 <= i < others.len() implies headers::is_attribute(
            #[trigger] others[i],
        ) by {
            assert(others[i] == s[i + 1]);
        }
        lemma_held(front + one, others, end, name, value);
        text::lemma_text_bytes(name);
        text::lemma_text_bytes(value);
        text::lemma_text_bytes(s[0].name);
        text::lemma_text_bytes(s[0].value);
        if has_attribute(others, name, value) {
            let i = choose|i: int|
                0 <= i < others.len() && (#[trigger] others[i]).name == name && others[i].value
                    == value;
            assert(s[i + 1] == others[i]);
        }
        if has_attribute(s, name, value) && !(s[0].name == name && s[0].value == value) {
            let i = choose|i: int|
                0 <= i < s.len() && (#[trigger] s[i]).name == name && s[i].value == value;
            assert(others[i - 1] == s[i]);
        }
    }
}

/// A trailer asks for writability just where one of its attributes is `end` with the value `w`,
/// whatever other attributes it has.
pub proof fn law_writability_is_asked_by_an_attribute(s: Seq<HeaderAttribute>, end: Seq<char>)
    requires
        forall|i: int| 0 <= i < s.len() ==> headers::is_attribute(#[trigger] s[i]),
        headers::is_spaces(end),
    ensures
        packet::asks_writable(encode_utf8(headers::header_text(s, end))) == has_attribute(
            s,
            "end"@,
            "w"@,
        ),
{
    reveal(packet::asks_writable);
    text::lemma_encode_concat("<?xpacket"@, headers::attributes_text(s) + (end + "?>"@));
    lemma_held(opening(), s, end, "end"@, "w"@);
}

/// Whether bytes are a word that is no attribute: no white space, no `=` and not the end of the
/// instruction.
pub open spec fn is_stray(word: Seq<u8>) -> bool {
    &&& word.len() > 0
    &&& forall|i: int|
        0 <= i < word.len() ==> !text::is_space_byte(#[trigger] word[i]) && word[i] != 0x3D
    &&& word[0] == 0x3F ==> word.len() > 1 && word[1] != 0x3E
}

/// What follows a stray word does not begin with `=`.
proof fn lemma_no_equals(front: Seq<u8>, s: Seq<HeaderAttribute>, end: Seq<char>)
    requires
        headers::are_attributes(s),
        headers::is_spaces(end),
    ensures
        ({
            let b = front + encode_utf8(headers::attributes_text(s) + (end + "?>"@));
            let next = text::scan(b, front.len() as int, ByteClass::NonSpace);
            front.len() <= next < b.len() && b[next] != 0x3D
        }),
{
    let tail = end + "?>"@;
    let b = front + encode_utf8(headers::attributes_text(s) + tail);
    let at = front.len() as int;
    packet::lemma_instruction_end();
    text::lemma_encode_concat(end, "?>"@);
    text::lemma_scan(b, at, ByteClass::NonSpace);
    let next = text::scan(b, at, ByteClass::NonSpace);
    if s.len() == 0 {
        assert(headers::attributes_text(s) + tail =~= tail);
        headers::lemma_space_bytes(end);
        let spaces = encode_utf8(end);
        let stop = at + spaces.len();
        assert forall|i: int| at <= i < stop implies text::is_space_byte(#[trigger] b[i]) by {
            assert(b[i] == spaces[i - at]);
        }
        assert(b[stop] == 0x3F);
        packet::lemma_scan_stops(b, at, ByteClass::NonSpace, stop);
    } else {
        let rest = headers::attributes_text(s.drop_first()) + tail;
        assert(headers::attributes_text(s) + tail =~= headers::attribute_text(s[0]) + rest);
        text::lemma_encode_concat(headers::attribute_text(s[0]), rest);
        assert(b =~= front + encode_utf8(headers::attribute_text(s[0])) + encode_utf8(rest));
        assert(headers::is_attribute(s[0]));
        headers::lemma_step(front, s[0], encode_utf8(rest));
        text::lemma_text_bytes(s[0].name);
        if next < b.len() && b[next] == 0x3D {
            packet::lemma_scan_stops(b, next, ByteClass::AttributeNameEnd, next);
            assert(encode_utf8(s[0].name) =~= Seq::<u8>::empty());
            assert(decode_utf8(Seq::<u8>::empty()) =~= s[0].name);
        }
    }
}

/// A stray word is passed over.
proof fn lemma_stray(
    front: Seq<u8>,
    gap: Seq<char>,
    word: Seq<u8>,
    s: Seq<HeaderAttribute>,
    end: Seq<char>,
    name: Seq<char>,
    value: Seq<char>,
)
    requires
        headers::is_spaces(gap),
        is_stray(word),
        headers::are_attributes(s),
        s.len() > 0 ==> s[0].space.len() > 0,
        headers::is_spaces(end),
    ensures
        packet::holds_attribute(
            front + encode_utf8(gap) + word + encode_utf8(
                headers::attributes_text(s) + (end + "?>"@),
            ),
            front.len() as int,
            encode_utf8(name),
            encode_utf8(value),
        ) == has_attribute(s, name, value),
{
    let spaces = encode_utf8(gap);
    let tail = encode_utf8(headers::attributes_text(s) + (end + "?>"@));
    let before = front + spaces + word;
    let b = before + tail;
    let at = front.len() as int;
    let start = at + spaces.len();
    let done = start + word.len();
    headers::lemma_space_bytes(gap);
    packet::lemma_instruction_end();
    assert forall|i: int| at <= i < start implies text::is_space_byte(#[trigger] b[i]) by {
        assert(b[i] == spaces[i - at]);
    }
    assert forall|i: int| start <= i < done implies !text::is_space_byte(#[trigger] b[i]) && b[i]
        != 0x3D by {
        assert(b[i] == word[i - start]);
    }
    packet::lemma_scan_stops(b, at, ByteClass::NonSpace, start);
    lemma_no_equals(before, s, end);
    let stop = text::scan(b, start, ByteClass::AttributeNameEnd);
    text::lemma_scan(b, start, ByteClass::AttributeNameEnd);
    lemma_after_word(s, end);
    assert(b[done] == tail[0]);
    assert(stop <= done) by {
        if stop > done {
            assert(!text::in_class(ByteClass::AttributeNameEnd, b[done]));
        }
    }
    if stop < done {
        packet::lemma_scan_stops(b, stop, ByteClass::NonSpace, stop);
    }
    assert(!text::occurs_at(b, encode_utf8("?>"@), start)) by {
        if text::occurs_at(b, encode_utf8("?>"@), start) {
            let two = b.subrange(start, start + 2);
            assert(b[start] == two[0] && b[start + 1] == two[1]);
            assert(b[start] == word[0]);
            if word.len() > 1 {
                assert(b[start + 1] == word[1]);
            }
        }
    }
    assert(packet::header_step(b, at) is Malformed);
    packet::lemma_next_space(b, at);
    lemma_held(before, s, end, name, value);
    let next = packet::next_space(b, at);
    text::lemma_scan(b, start, ByteClass::Space);
    if text::is_space_byte(b[done]) {
        packet::lemma_scan_stops(b, start, ByteClass::Space, done);
    } else {
        assert(s.len() == 0);
        assert(next == b.len()) by {
            if next < b.len() {
                assert(text::in_class(ByteClass::Space, b[next]));
                assert(next >= done);
                assert(b[next] == tail[next - done]);
            }
        }
        assert(!packet::holds_attribute(b, next, encode_utf8(name), encode_utf8(value)));
    }
}

/// What follows a word: a space, or the end of the instruction.
proof fn lemma_after_word(s: Seq<HeaderAttribute>, end: Seq<char>)
    requires
        headers::are_attributes(s),
        s.len() > 0 ==> s[0].space.len() > 0,
        headers::is_spaces(end),
    ensures
        ({
            let tail = encode_utf8(headers::attributes_text(s) + (end + "?>"@));
            &&& tail.len() > 0
            &&& text::is_space_byte(tail[0]) || (s.len() == 0 && tail == encode_utf8("?>"@))
        }),
{
    let whole = headers::attributes_text(s) + (end + "?>"@);
    packet::lemma_instruction_end();
    if s.len() > 0 || end.len() > 0 {
        let c = if s.len() > 0 {
            s[0].space[0]
        } else {
            end[0]
        };
        if s.len() > 0 {
            assert(headers::is_attribute(s[0]));
        } else {
            assert(headers::attributes_text(s) =~= Seq::empty());
        }
        assert(headers::is_space_char(c));
        assert(whole[0] == c);
        assert(whole =~= seq![c] + whole.drop_first());
        text::lemma_encode_concat(seq![c], whole.drop_first());
        assert(headers::is_spaces(seq![c]));
        headers::lemma_space_bytes(seq![c]);
        text::lemma_ascii_bytes(seq![c]);
    } else {
        assert(whole =~= "?>"@);
    }
}

proof fn lemma_held_around(
    front: Seq<u8>,
    before: Seq<HeaderAttribute>,
    gap: Seq<char>,
    word: Seq<u8>,
    s: Seq<HeaderAttribute>,
    end: Seq<char>,
    name: Seq<char>,
    value: Seq<char>,
)
    requires
        headers::are_attributes(before),
        headers::is_spaces(gap),
        is_stray(word),
        headers::are_attributes(s),
        s.len() > 0 ==> s[0].space.len() > 0,
        headers::is_spaces(end),
    ensures
        packet::holds_attribute(
            front + encode_utf8(headers::attributes_text(before)) + encode_utf8(gap) + word
                + encode_utf8(headers::attributes_text(s) + (end + "?>"@)),
            front.len() as int,
            encode_utf8(name),
            encode_utf8(value),
        ) == (has_attribute(before, name, value) || has_attribute(s, name, value)),
    decreases before.len(),
{
    let tail = encode_utf8(headers::attributes_text(s) + (end + "?>"@));
    let after = encode_utf8(gap) + word + tail;
    let b = front + encode_utf8(headers::attributes_text(before)) + encode_utf8(gap) + word + tail;
    if before.len() == 0 {
        assert(encode_utf8(headers::attributes_text(before)) =~= Seq::<u8>::empty());
        assert(b =~= front + encode_utf8(gap) + word + tail);
        lemma_stray(front, gap, word, s, end, name, value);
    } else {
        let rest = encode_utf8(headers::attributes_text(before.drop_first()));
        let one = encode_utf8(headers::attribute_text(before[0]));
        text::lemma_encode_concat(
            headers::attribute_text(before[0]),
            headers::attributes_text(before.drop_first()),
        );
        assert(b =~= front + one + (rest + after));
        assert(headers::is_attribute(before[0]));
        headers::lemma_step(front, before[0], rest + after);
        packet::lemma_header_step(b, front.len() as int);
        let others = before.drop_first();
        assert forall|i: int| 0 <= i < others.len() implies headers::is_attribute(
            #[trigger] others[i],
        ) by {
            assert(others[i] == before[i + 1]);
        }
        assert(b =~= (front + one) + rest + encode_utf8(gap) + word + tail);
        lemma_held_around(front + one, others, gap, word, s, end, name, value);
        text::lemma_text_bytes(name);
        text::lemma_text_bytes(value);
        text::lemma_text_bytes(before[0].name);
        text::lemma_text_bytes(before[0].value);
        if has_attribute(others, name, value) {
            let i = choose|i: int|
                0 <= i < others.len() && (#[trigger] others[i]).name == name && others[i].value
                    == value;
            assert(before[i + 1] == others[i]);
        }
        if has_attribute(before, name, value) && !(before[0].name == name && before[0].value
            == value) {
            let i = choose|i: int|
                0 <= i < before.len() && (#[trigger] before[i]).name == name && before[i].value
                    == value;
            assert(others[i - 1] == before[i]);
        }
    }
}

/// A stray word among the attributes of a closing instruction changes nothing: the attribute `end`
/// is found before it and behind it.
pub proof fn law_stray_words_are_passed_over(
    before: Seq<HeaderAttribute>,
    gap: Seq<char>,
    word: Seq<u8>,
    after: Seq<HeaderAttribute>,
    end: Seq<char>,
)
    requires
        headers::are_attributes(before),
        headers::is_spaces(gap),
        is_stray(word),
        headers::are_attributes(after),
        after.len() > 0 ==> after[0].space.len() > 0,
        headers::is_spaces(end),
    ensures
        packet::asks_writable(
            opening() + encode_utf8(headers::attributes_text(before)) + encode_utf8(gap) + word
                + encode_utf8(headers::attributes_text(after) + (end + "?>"@)),
        ) == (has_attribute(before, "end"@, "w"@) || has_attribute(after, "end"@, "w"@)),
{
    reveal(packet::asks_writable);
    lemma_held_around(opening(), before, gap, word, after, end, "end"@, "w"@);
}

/// The value of an attribute of an opening instruction is that of the first with its name, and there
/// is none just where none has it.
pub proof fn law_header_attributes_are_found_by_name(
    s: Seq<HeaderAttribute>,
    end: Seq<char>,
    name: Seq<char>,
)
    requires
        forall|i: int| 0 <= i < s.len() ==> headers::is_attribute(#[trigger] s[i]),
        headers::is_spaces(end),
    ensures
        match packet::instruction_attribute(headers::header_text(s, end), name) {
            Some(value) => exists|i: int|
                {
                    &&& 0 <= i < s.len()
                    &&& (#[trigger] s[i]).name == name
                    &&& s[i].value == value
                    &&& forall|j: int| 0 <= j < i ==> (#[trigger] s[j]).name != name
                },
            None => forall|i: int| 0 <= i < s.len() ==> (#[trigger] s[i]).name != name,
        },
{
    headers::lemma_header_read(s, end, name);
    headers::lemma_first_value(s, name);
}

// ---------------------------------------------------------------------------------------------
// Encodings
// ---------------------------------------------------------------------------------------------

/// The number of bytes of a code unit.
pub open spec fn unit_length(encoding: XmpEncoding) -> int {
    match encoding {
        XmpEncoding::Utf8 => 1,
        XmpEncoding::Utf16Be => 2,
        XmpEncoding::Utf16Le => 2,
        XmpEncoding::Utf32Be => 4,
        XmpEncoding::Utf32Le => 4,
    }
}

/// A packet in UTF-16 or UTF-32 is transcoded into the UTF-8 bytes of its text, and an incomplete
/// code unit behind it is dropped.
pub proof fn law_incomplete_units_are_dropped(
    text: Seq<char>,
    encoding: XmpEncoding,
    with_bom: bool,
    stray: Seq<u8>,
)
    requires
        encoding::self_describing(text, encoding, with_bom),
        packet::split(encode_utf8(text)) is Ok,
        encoding != XmpEncoding::Utf8,
        stray.len() < unit_length(encoding),
        encoding::detected(encoding::encoded_packet(text, encoding, with_bom) + stray)
            == encoding::detected(encoding::encoded_packet(text, encoding, with_bom)),
    ensures
        packet::transcoded(encoding::encoded_packet(text, encoding, with_bom) + stray) == Ok::<
            Seq<u8>,
            ErrorView,
        >(encode_utf8(text)),
{
    let bytes = encoding::encoded_packet(text, encoding, with_bom);
    let all = bytes + stray;
    encoding::law_packet_round_trip(text, encoding, with_bom);
    assert(packet::scanned(bytes) matches Ok(d) && d.decoded == text && d.encoding == encoding);
    if stray.len() == 0 {
        assert(all =~= bytes);
    } else {
        lemma_incomplete(text, encoding, with_bom, stray);
    }
}

/// A packet with an incomplete code unit behind it cannot be scanned, and is whole without it.
proof fn lemma_incomplete(
    text: Seq<char>,
    encoding: XmpEncoding,
    with_bom: bool,
    stray: Seq<u8>,
)
    requires
        encoding::self_describing(text, encoding, with_bom),
        encoding != XmpEncoding::Utf8,
        0 < stray.len() < unit_length(encoding),
        encoding::detected(encoding::encoded_packet(text, encoding, with_bom) + stray)
            == encoding::detected(encoding::encoded_packet(text, encoding, with_bom)),
    ensures
        packet::scanned(encoding::encoded_packet(text, encoding, with_bom) + stray) is Err,
        packet::whole_units(encoding::encoded_packet(text, encoding, with_bom) + stray)
            == encoding::encoded_packet(text, encoding, with_bom),
{
    let bytes = encoding::encoded_packet(text, encoding, with_bom);
    let all = bytes + stray;
    let unit = unit_length(encoding);
    encoding::lemma_detected(text, encoding, with_bom);
    encoding::lemma_unit_lengths(encoding, text);
    assert(encoding::detected(all) == (encoding, with_bom));
    let body = encoding::encoded_text(encoding, text);
    let mark: int = if with_bom {
        encoding::byte_order_mark(encoding).len() as int
    } else {
        0
    };
    assert(mark % unit == 0);
    assert(body.len() % unit as nat == 0);
    assert(bytes.len() == mark + body.len());
    assert(encoding::mark_length(all) == mark);
    let rest = encoding::after_mark(all);
    assert(rest.len() == body.len() + stray.len());
    assert(rest.len() % unit as nat == stray.len());
    assert(encoding::decoded_as(encoding, rest) is Err);
    assert(all.len() % unit as nat == stray.len());
    assert(packet::whole_units(all) =~= bytes);
}

/// Whether four bytes hold a number in the given byte order.
pub open spec fn hold(b: Seq<u8>, big: bool, number: int) -> bool {
    &&& b.len() == 4
    &&& number == if big {
        b[0] * 0x1000000 + b[1] * 0x10000 + b[2] * 0x100 + b[3]
    } else {
        b[3] * 0x1000000 + b[2] * 0x10000 + b[1] * 0x100 + b[0]
    }
}

/// A text in UTF-32 is its characters one after the other, and the four bytes of a character hold its
/// code.
pub proof fn law_utf32_writes_each_character(big: bool, c: char, rest: Seq<char>)
    ensures
        encoding::utf32_bytes(big, seq![c] + rest) == encoding::utf32_bytes(big, seq![c])
            + encoding::utf32_bytes(big, rest),
        hold(encoding::utf32_bytes(big, seq![c]), big, c as int),
{
    let kind = if big {
        XmpEncoding::Utf32Be
    } else {
        XmpEncoding::Utf32Le
    };
    encoding::lemma_encoded_concat(kind, seq![c], rest);
    let one = seq![c];
    assert(one.drop_first() =~= Seq::<char>::empty());
    assert(one[0] == c);
    assert(encoding::utf32_bytes(big, Seq::<char>::empty()) =~= Seq::<u8>::empty());
    assert(encoding::utf32_bytes(big, one) =~= encoding::char_bytes32(big, c));
    lemma_four_bytes(c as int);
}

proof fn lemma_four_bytes(n: int)
    requires
        0 <= n < 0x1_0000_0000,
    ensures
        n / 0x1000000 % 0x100 * 0x1000000 + n / 0x10000 % 0x100 * 0x10000 + n / 0x100 % 0x100
            * 0x100 + n % 0x100 == n,
        0 <= n / 0x1000000 < 0x100,
{
    let a = n / 0x100;
    let b = a / 0x100;
    assert(n / 0x10000 == b) by (nonlinear_arith)
        requires
            a == n / 0x100,
            b == a / 0x100,
    ;
    assert(n / 0x1000000 == b / 0x100) by (nonlinear_arith)
        requires
            a == n / 0x100,
            b == a / 0x100,
    ;
}

/// The code unit that stands in some bytes at an index.
pub open spec fn unit_at(b: Seq<u8>, big: bool, i: int) -> int {
    if big {
        b[i] * 0x100 + b[i + 1]
    } else {
        b[i + 1] * 0x100 + b[i]
    }
}

/// A text in UTF-16 is its characters one after the other. The two bytes of one below `U+10000` hold
/// its code. Another is two surrogates, the higher of which comes first and holds the upper half of
/// what its code exceeds `U+10000` by.
pub proof fn law_utf16_writes_each_character(big: bool, c: char, rest: Seq<char>)
    ensures
        encoding::utf16_bytes(big, seq![c] + rest) == encoding::utf16_bytes(big, seq![c])
            + encoding::utf16_bytes(big, rest),
        ({
            let b = encoding::utf16_bytes(big, seq![c]);
            if (c as int) < 0x10000 {
                b.len() == 2 && unit_at(b, big, 0) == c as int
            } else {
                &&& b.len() == 4
                &&& 0xD800 <= unit_at(b, big, 0) < 0xDC00
                &&& 0xDC00 <= unit_at(b, big, 2) < 0xE000
                &&& 0x10000 + (unit_at(b, big, 0) - 0xD800) * 0x400 + (unit_at(b, big, 2) - 0xDC00)
                    == c as int
            }
        }),
{
    let kind = if big {
        XmpEncoding::Utf16Be
    } else {
        XmpEncoding::Utf16Le
    };
    encoding::lemma_encoded_concat(kind, seq![c], rest);
    let one = seq![c];
    assert(one.drop_first() =~= Seq::<char>::empty());
    assert(one[0] == c);
    assert(encoding::utf16_bytes(big, Seq::<char>::empty()) =~= Seq::<u8>::empty());
    let b = encoding::utf16_bytes(big, one);
    assert(b =~= encoding::char_bytes16(big, c));
    let units = encoding::char_units(c);
    assert((c as int) <= 0x10FFFF);
    assert(b[0] == encoding::unit_bytes(big, units[0])[0]);
    assert(b[1] == encoding::unit_bytes(big, units[0])[1]);
    if units.len() == 2 {
        assert(b[2] == encoding::unit_bytes(big, units[1])[0]);
        assert(b[3] == encoding::unit_bytes(big, units[1])[1]);
    }
}

// ---------------------------------------------------------------------------------------------
// The canonical form
// ---------------------------------------------------------------------------------------------

/// The canonical form of a packet is the canonical header, the body of the packet with what the
/// repair of a body changes, and a trailer that asks for writability where the packet does. A packet
/// that lacks one of its instructions has none.
pub proof fn law_canonical_packets_frame_the_body(bytes: Seq<u8>)
    ensures
        match repair::canonicalised(bytes) {
            Ok(out) => packet::scanned(bytes) matches Ok(d) && d.envelope.header matches Some(header)
                && d.envelope.trailer matches Some(trailer) && {
                let body = d.bytes().subrange(header.end as int, trailer.start as int);
                let kept = match repair::body_repaired(body) {
                    Some(repaired) => repaired,
                    None => body,
                };
                out == encode_utf8("<?xpacket begin='"@) + encode_utf8("\u{FEFF}"@) + encode_utf8(
                    "' id='"@,
                ) + encode_utf8("W5M0MpCehiHzreSzNTczkc9d"@) + encode_utf8("'?>"@) + kept
                    + encode_utf8(
                    if d.packet.writable {
                        "<?xpacket end='w'?>"@
                    } else {
                        "<?xpacket end='r'?>"@
                    },
                )
            },
            Err(_) => packet::scanned(bytes) matches Ok(d) ==> d.envelope.header is None
                || d.envelope.trailer is None,
        },
{
    let a = "<?xpacket begin='"@;
    let b = "\u{FEFF}"@;
    let c = "' id='"@;
    let d = "W5M0MpCehiHzreSzNTczkc9d"@;
    let e = "'?>"@;
    text::lemma_encode_concat(a, b);
    text::lemma_encode_concat(a + b, c);
    text::lemma_encode_concat(a + b + c, d);
    text::lemma_encode_concat(a + b + c + d, e);
}

} // verus!
