//! What the removal of header attributes leaves of the others.

use vstd::prelude::*;
use vstd::string::*;
use vstd::utf8::*;

use crate::error::ErrorView;
use crate::packet;
use crate::packet::HeaderStep;
use crate::rescanning;
use crate::rewriting;
use crate::text;
use crate::text::ByteClass;

verus! {

// ---------------------------------------------------------------------------------------------
// Headers as lists of attributes
// ---------------------------------------------------------------------------------------------

/// An attribute of a packet instruction as it is written, with the white space before it and round
/// its `=`.
pub struct HeaderAttribute {
    /// White space before the attribute.
    pub space: Seq<char>,
    /// Name.
    pub name: Seq<char>,
    /// White space before the `=`.
    pub before: Seq<char>,
    /// White space after the `=`.
    pub after: Seq<char>,
    /// The quote round the value.
    pub quote: char,
    /// Value.
    pub value: Seq<char>,
}

/// Whether a text is ASCII white space.
pub open spec fn is_spaces(s: Seq<char>) -> bool {
    forall|i: int| 0 <= i < s.len() ==> is_space_char(#[trigger] s[i])
}

/// Whether a character is ASCII white space.
pub open spec fn is_space_char(c: char) -> bool {
    c == '\t' || c == '\n' || c == '\u{c}' || c == '\r' || c == ' '
}

/// Whether a text can stand as the name of an attribute.
pub open spec fn is_header_name(name: Seq<char>) -> bool {
    &&& name.len() > 0
    &&& !text::is_white_char(name[0])
    &&& forall|i: int|
        0 <= i < name.len() ==> !packet::ends_name(#[trigger] name[i]) && name[i] != '?' && name[i]
            != '>'
}

/// Whether an attribute is a name, a `=` and a quoted value, parted by ASCII white space.
pub open spec fn is_attribute(a: HeaderAttribute) -> bool {
    &&& is_spaces(a.space)
    &&& is_header_name(a.name)
    &&& is_spaces(a.before)
    &&& is_spaces(a.after)
    &&& a.quote == '\'' || a.quote == '"'
    &&& forall|i: int| 0 <= i < a.value.len() ==> #[trigger] a.value[i] != a.quote
}

/// The text of an attribute.
pub open spec fn attribute_text(a: HeaderAttribute) -> Seq<char> {
    a.space + a.name + a.before + seq!['='] + a.after + seq![a.quote] + a.value + seq![a.quote]
}

/// The text of some attributes.
pub open spec fn attributes_text(s: Seq<HeaderAttribute>) -> Seq<char>
    decreases s.len(),
{
    if s.len() == 0 {
        Seq::empty()
    } else {
        attribute_text(s[0]) + attributes_text(s.drop_first())
    }
}

/// The text of an opening instruction with some attributes and the white space behind them.
pub open spec fn header_text(s: Seq<HeaderAttribute>, end: Seq<char>) -> Seq<char> {
    "<?xpacket"@ + (attributes_text(s) + (end + "?>"@))
}

/// Some attributes without those of the given names.
pub open spec fn kept(s: Seq<HeaderAttribute>, names: Seq<Seq<u8>>) -> Seq<HeaderAttribute>
    decreases s.len(),
{
    if s.len() == 0 {
        s
    } else if names.contains(encode_utf8(s[0].name)) {
        kept(s.drop_first(), names)
    } else {
        seq![s[0]] + kept(s.drop_first(), names)
    }
}

/// The names and values of some attributes.
pub open spec fn pairs(s: Seq<HeaderAttribute>) -> Seq<(Seq<char>, Seq<char>)>
    decreases s.len(),
{
    if s.len() == 0 {
        Seq::empty()
    } else {
        seq![(s[0].name, s[0].value)] + pairs(s.drop_first())
    }
}

/// Whether all of some attributes are attributes.
pub open spec fn are_attributes(s: Seq<HeaderAttribute>) -> bool {
    forall|i: int| 0 <= i < s.len() ==> is_attribute(#[trigger] s[i])
}

/// What is kept are attributes, and of a kept name all of them.
proof fn lemma_kept(s: Seq<HeaderAttribute>, names: Seq<Seq<u8>>, name: Seq<char>)
    requires
        are_attributes(s),
    ensures
        are_attributes(kept(s, names)),
        packet::first_value(pairs(kept(s, names)), name) == if names.contains(encode_utf8(name)) {
            None
        } else {
            packet::first_value(pairs(s), name)
        },
    decreases s.len(),
{
    if s.len() > 0 {
        let rest = s.drop_first();
        lemma_kept(rest, names, name);
        assert(pairs(s).drop_first() =~= pairs(rest));
        if !names.contains(encode_utf8(s[0].name)) {
            let left = kept(rest, names);
            assert(kept(s, names).drop_first() =~= left);
            assert(pairs(kept(s, names)).drop_first() =~= pairs(left));
        }
    }
}

// ---------------------------------------------------------------------------------------------
// Reading attributes
// ---------------------------------------------------------------------------------------------

proof fn lemma_skips(chars: Seq<char>, from: int, at: int)
    requires
        0 <= from <= at < chars.len(),
        forall|i: int| from <= i < at ==> text::is_white_char(#[trigger] chars[i]),
        !text::is_white_char(chars[at]),
    ensures
        text::skip_white(chars, from) == at,
    decreases at - from,
{
    if from < at {
        lemma_skips(chars, from + 1, at);
    }
}

proof fn lemma_name_ends(chars: Seq<char>, from: int, at: int)
    requires
        0 <= from <= at < chars.len(),
        forall|i: int| from <= i < at ==> !packet::ends_name(#[trigger] chars[i]),
        packet::ends_name(chars[at]),
    ensures
        packet::name_end(chars, from) == at,
    decreases at - from,
{
    if from < at {
        lemma_name_ends(chars, from + 1, at);
    }
}

proof fn lemma_quote_found(chars: Seq<char>, from: int, at: int, c: char)
    requires
        0 <= from <= at < chars.len(),
        forall|i: int| from <= i < at ==> #[trigger] chars[i] != c,
        chars[at] == c,
    ensures
        packet::char_from(chars, from, c) == at,
    decreases at - from,
{
    if from < at {
        lemma_quote_found(chars, from + 1, at, c);
    }
}

/// An attribute is read where it stands.
proof fn lemma_attribute_read(front: Seq<char>, a: HeaderAttribute, rest: Seq<char>)
    requires
        is_attribute(a),
    ensures
        packet::attribute_at(front + attribute_text(a) + rest, front.len() as int) == Some(
            (a.name, a.value, (front.len() + attribute_text(a).len()) as int),
        ),
{
    let chars = front + attribute_text(a) + rest;
    let from = front.len() as int;
    let start = from + a.space.len();
    let stop = start + a.name.len();
    let equals = stop + a.before.len();
    let open = equals + 1 + a.after.len();
    let close = open + 1 + a.value.len();
    assert forall|i: int| from <= i < start implies text::is_white_char(#[trigger] chars[i]) by {
        assert(chars[i] == a.space[i - from]);
    }
    assert forall|i: int| start <= i < stop implies !packet::ends_name(#[trigger] chars[i]) by {
        assert(chars[i] == a.name[i - start]);
    }
    assert forall|i: int| stop <= i < equals implies is_space_char(#[trigger] chars[i]) by {
        assert(chars[i] == a.before[i - stop]);
    }
    assert(chars[equals] == '=');
    assert forall|i: int| equals < i < open implies is_space_char(#[trigger] chars[i]) by {
        assert(chars[i] == a.after[i - equals - 1]);
    }
    assert(chars[open] == a.quote);
    assert forall|i: int| open < i < close implies #[trigger] chars[i] != a.quote by {
        assert(chars[i] == a.value[i - open - 1]);
    }
    assert(chars[close] == a.quote);
    assert(chars[start] == a.name[0]);
    lemma_skips(chars, from, start);
    lemma_name_ends(chars, start, stop);
    lemma_skips(chars, stop, equals);
    lemma_skips(chars, equals + 1, open);
    lemma_quote_found(chars, open + 1, close, a.quote);
    assert(chars.subrange(start, stop) =~= a.name);
    assert(chars.subrange(open + 1, close) =~= a.value);
}

/// Attributes are read in their order.
proof fn lemma_attributes_read(front: Seq<char>, s: Seq<HeaderAttribute>, end: Seq<char>)
    requires
        are_attributes(s),
        is_spaces(end),
    ensures
        packet::attributes_from(
            front + (attributes_text(s) + (end + "?>"@)),
            front.len() as int,
        ) == pairs(s),
    decreases s.len(),
{
    let tail = end + "?>"@;
    let chars = front + (attributes_text(s) + tail);
    reveal_strlit("?>");
    if s.len() == 0 {
        let at = front.len() as int + end.len() as int;
        assert forall|i: int| front.len() <= i < at implies text::is_white_char(
            #[trigger] chars[i],
        ) by {
            assert(chars[i] == end[i - front.len()]);
        }
        assert(chars[at] == '?' && chars[at + 1] == '>');
        lemma_skips(chars, front.len() as int, at);
    } else {
        let rest = attributes_text(s.drop_first()) + tail;
        let whole = front + attribute_text(s[0]);
        assert(chars =~= whole + rest);
        lemma_attribute_read(front, s[0], rest);
        lemma_attributes_read(whole, s.drop_first(), end);
    }
}

// ---------------------------------------------------------------------------------------------
// Dropping attributes
// ---------------------------------------------------------------------------------------------

/// The bytes of a text that are ASCII are characters of it.
proof fn lemma_ascii_byte(text: Seq<char>, j: int)
    requires
        0 <= j < encode_utf8(text).len(),
        encode_utf8(text)[j] < 0x80,
    ensures
        exists|k: int| 0 <= k < text.len() && #[trigger] text[k] == encode_utf8(text)[j] as char,
{
    rescanning::lemma_ascii_split(text, j);
    let k = decode_utf8(encode_utf8(text).subrange(0, j)).len() as int;
    assert(text[k] == encode_utf8(text)[j] as char);
}

/// The bytes of an attribute: its white space, its name, its value.
proof fn lemma_attribute_bytes(a: HeaderAttribute)
    requires
        is_attribute(a),
    ensures
        encode_utf8(attribute_text(a)) == encode_utf8(a.space) + encode_utf8(a.name) + encode_utf8(
            a.before,
        ) + seq![0x3Du8] + encode_utf8(a.after) + seq![a.quote as u8] + encode_utf8(a.value)
            + seq![a.quote as u8],
        are_space_bytes(encode_utf8(a.space)),
        are_space_bytes(encode_utf8(a.before)),
        are_space_bytes(encode_utf8(a.after)),
        is_name_bytes(encode_utf8(a.name)),
        lacks(encode_utf8(a.value), a.quote as u8),
{
    let equals = seq!['='];
    let quote = seq![a.quote];
    text::lemma_ascii_bytes(equals);
    text::lemma_ascii_bytes(quote);
    assert(encode_utf8(equals) =~= seq![0x3Du8]);
    assert(encode_utf8(quote) =~= seq![a.quote as u8]);
    let t1 = a.space + a.name;
    let t2 = t1 + a.before;
    let t3 = t2 + equals;
    let t4 = t3 + a.after;
    let t5 = t4 + quote;
    let t6 = t5 + a.value;
    text::lemma_encode_concat(a.space, a.name);
    text::lemma_encode_concat(t1, a.before);
    text::lemma_encode_concat(t2, equals);
    text::lemma_encode_concat(t3, a.after);
    text::lemma_encode_concat(t4, quote);
    text::lemma_encode_concat(t5, a.value);
    text::lemma_encode_concat(t6, quote);
    lemma_space_bytes(a.space);
    lemma_space_bytes(a.before);
    lemma_space_bytes(a.after);
    lemma_name_bytes(a.name);
    lemma_value_bytes(a.value, a.quote);
}

pub open spec fn are_space_bytes(s: Seq<u8>) -> bool {
    forall|i: int| 0 <= i < s.len() ==> text::is_space_byte(#[trigger] s[i])
}

spec fn is_name_bytes(s: Seq<u8>) -> bool {
    s.len() > 0 && forall|i: int|
        0 <= i < s.len() ==> !text::in_class(ByteClass::AttributeNameEnd, #[trigger] s[i])
}

spec fn lacks(s: Seq<u8>, b: u8) -> bool {
    forall|i: int| 0 <= i < s.len() ==> #[trigger] s[i] != b
}

pub proof fn lemma_space_bytes(s: Seq<char>)
    requires
        is_spaces(s),
    ensures
        are_space_bytes(encode_utf8(s)),
{
    assert(is_ascii_chars(s)) by {
        assert forall|i: int| 0 <= i < s.len() implies '\0' <= #[trigger] s[i] <= '\u{7f}' by {
            assert(is_space_char(s[i]));
        }
    }
    text::lemma_ascii_bytes(s);
    assert forall|i: int| 0 <= i < encode_utf8(s).len() implies text::is_space_byte(
        #[trigger] encode_utf8(s)[i],
    ) by {
        assert(is_space_char(s[i]));
    }
}

proof fn lemma_name_bytes(name: Seq<char>)
    requires
        is_header_name(name),
    ensures
        is_name_bytes(encode_utf8(name)),
{
    let b = encode_utf8(name);
    assert(b.len() > 0) by {
        text::lemma_text_bytes(name);
        if b.len() == 0 {
            assert(b =~= encode_utf8(Seq::<char>::empty()));
            text::lemma_text_bytes(Seq::<char>::empty());
        }
    }
    assert forall|i: int| 0 <= i < b.len() implies !text::in_class(
        ByteClass::AttributeNameEnd,
        #[trigger] b[i],
    ) by {
        if b[i] < 0x80 {
            lemma_ascii_byte(name, i);
            let k = choose|k: int| 0 <= k < name.len() && #[trigger] name[k] == b[i] as char;
            assert(!packet::ends_name(name[k]));
        }
    }
}

proof fn lemma_value_bytes(value: Seq<char>, quote: char)
    requires
        quote == '\'' || quote == '"',
        forall|i: int| 0 <= i < value.len() ==> #[trigger] value[i] != quote,
    ensures
        lacks(encode_utf8(value), quote as u8),
{
    let b = encode_utf8(value);
    assert forall|i: int| 0 <= i < b.len() implies #[trigger] b[i] != quote as u8 by {
        if b[i] == quote as u8 {
            lemma_ascii_byte(value, i);
            let k = choose|k: int| 0 <= k < value.len() && #[trigger] value[k] == b[i] as char;
            assert(value[k] == quote);
        }
    }
}

/// An attribute is found where it stands.
pub proof fn lemma_step(front: Seq<u8>, a: HeaderAttribute, rest: Seq<u8>)
    requires
        is_attribute(a),
    ensures
        packet::header_step(
            front + encode_utf8(attribute_text(a)) + rest,
            front.len() as int,
        ) == HeaderStep::Attribute(
            encode_utf8(a.name),
            encode_utf8(a.value),
            (front.len() + encode_utf8(attribute_text(a)).len()) as int,
        ),
{
    lemma_attribute_bytes(a);
    let b = front + encode_utf8(attribute_text(a)) + rest;
    let space = encode_utf8(a.space);
    let name = encode_utf8(a.name);
    let before = encode_utf8(a.before);
    let after = encode_utf8(a.after);
    let value = encode_utf8(a.value);
    let quote = a.quote as u8;
    let from = front.len() as int;
    let start = from + space.len();
    let stop = start + name.len();
    let equals = stop + before.len();
    let open = equals + 1 + after.len();
    let close = open + 1 + value.len();
    assert forall|i: int| from <= i < start implies text::is_space_byte(#[trigger] b[i]) by {
        assert(b[i] == space[i - from]);
    }
    assert forall|i: int| start <= i < stop implies !text::in_class(
        ByteClass::AttributeNameEnd,
        #[trigger] b[i],
    ) by {
        assert(b[i] == name[i - start]);
    }
    assert forall|i: int| stop <= i < equals implies text::is_space_byte(#[trigger] b[i]) by {
        assert(b[i] == before[i - stop]);
    }
    assert(b[equals] == 0x3D);
    assert forall|i: int| equals < i < open implies text::is_space_byte(#[trigger] b[i]) by {
        assert(b[i] == after[i - equals - 1]);
    }
    assert(b[open] == quote);
    assert forall|i: int| open < i < close implies #[trigger] b[i] != quote by {
        assert(b[i] == value[i - open - 1]);
    }
    assert(b[close] == quote);
    assert(b[start] == name[0]);
    packet::lemma_scan_stops(b, from, ByteClass::NonSpace, start);
    packet::lemma_scan_stops(b, start, ByteClass::AttributeNameEnd, stop);
    packet::lemma_scan_stops(b, stop, ByteClass::NonSpace, equals);
    packet::lemma_scan_stops(b, equals + 1, ByteClass::NonSpace, open);
    packet::lemma_scan_stops(b, open + 1, ByteClass::Exactly(quote), close);
    packet::lemma_instruction_end();
    assert(!text::occurs_at(b, encode_utf8("?>"@), start)) by {
        if text::occurs_at(b, encode_utf8("?>"@), start) {
            assert(b.subrange(start, start + 2)[0] == b[start]);
        }
    }
    assert(b.subrange(start, stop) =~= name);
    assert(b.subrange(open + 1, close) =~= value);
}

/// Attributes are kept or dropped one by one.
proof fn lemma_attributes_kept(
    front: Seq<u8>,
    s: Seq<HeaderAttribute>,
    end: Seq<char>,
    names: Seq<Seq<u8>>,
)
    requires
        are_attributes(s),
        is_spaces(end),
    ensures
        ({
            let b = front + encode_utf8(attributes_text(s) + (end + "?>"@));
            let left = encode_utf8(attributes_text(kept(s, names)) + (end + "?>"@));
            &&& packet::kept_from(b, front.len() as int, names) == Some(left)
            &&& front.len() + left.len() < b.len() || kept(s, names) == s
        }),
    decreases s.len(),
{
    let tail = end + "?>"@;
    let b = front + encode_utf8(attributes_text(s) + tail);
    packet::lemma_instruction_end();
    text::lemma_encode_concat(end, "?>"@);
    if s.len() == 0 {
        assert(attributes_text(s) + tail =~= tail);
        lemma_space_bytes(end);
        let spaces = encode_utf8(end);
        let at = front.len() as int + spaces.len() as int;
        assert forall|i: int| front.len() <= i < at implies text::is_space_byte(
            #[trigger] b[i],
        ) by {
            assert(b[i] == spaces[i - front.len()]);
        }
        assert(b[at] == 0x3F);
        packet::lemma_scan_stops(b, front.len() as int, ByteClass::NonSpace, at);
        assert(b.subrange(at, at + 2) =~= encode_utf8("?>"@));
        assert(b.subrange(front.len() as int, b.len() as int) =~= encode_utf8(tail));
    } else {
        let rest = attributes_text(s.drop_first()) + tail;
        let one = encode_utf8(attribute_text(s[0]));
        let whole = front + one;
        assert(attributes_text(s) + tail =~= attribute_text(s[0]) + rest);
        text::lemma_encode_concat(attribute_text(s[0]), rest);
        assert(b =~= whole + encode_utf8(rest));
        lemma_step(front, s[0], encode_utf8(rest));
        lemma_attribute_bytes(s[0]);
        lemma_attributes_kept(whole, s.drop_first(), end, names);
        let inner = kept(s.drop_first(), names);
        let left = attributes_text(inner) + tail;
        assert(b.subrange(front.len() as int, whole.len() as int) =~= one);
        if names.contains(encode_utf8(s[0].name)) {
            assert(kept(s, names) == inner);
        } else {
            let all = kept(s, names);
            assert(all.drop_first() =~= inner);
            assert(attributes_text(all) + tail =~= attribute_text(s[0]) + left);
            text::lemma_encode_concat(attribute_text(s[0]), left);
            if inner == s.drop_first() {
                assert(all =~= s);
            }
        }
    }
}

/// The attributes of an opening instruction are those that it was written with.
pub proof fn lemma_header_read(s: Seq<HeaderAttribute>, end: Seq<char>, name: Seq<char>)
    requires
        are_attributes(s),
        is_spaces(end),
    ensures
        packet::instruction_attribute(header_text(s, end), name) == packet::first_value(
            pairs(s),
            name,
        ),
{
    let opening = "<?xpacket"@;
    assert(header_text(s, end).subrange(0, opening.len() as int) =~= opening);
    lemma_attributes_read(opening, s, end);
}

/// Removing attributes from a header removes every attribute of these names and leaves every other
/// one, and the encoding, the byte-order mark and the packet, as they were.
pub proof fn law_removing_attributes_keeps_the_others(
    bytes: Seq<u8>,
    names: Seq<Seq<u8>>,
    attributes: Seq<HeaderAttribute>,
    end: Seq<char>,
    name: Seq<char>,
)
    requires
        packet::scanned(bytes) matches Ok(d) && (d.envelope.header matches Some(header)
            && decode_utf8(packet::span_bytes(d.bytes(), header)) == header_text(attributes, end)
            && d.bytes().len() <= usize::MAX),
        forall|i: int| 0 <= i < attributes.len() ==> is_attribute(#[trigger] attributes[i]),
        is_spaces(end),
    ensures
        packet::header_reduced(bytes, names) matches Ok(out) && packet::scanned(
            bytes,
        ) matches Ok(d) && packet::scanned(out) matches Ok(e) && {
            &&& e.header_attribute(name) == if names.contains(encode_utf8(name)) {
                None
            } else {
                d.header_attribute(name)
            }
            &&& (e.envelope.header matches Some(header) && decode_utf8(
                packet::span_bytes(e.bytes(), header),
            ) == header_text(kept(attributes, names), end))
            &&& e.encoding == d.encoding
            &&& e.had_bom == d.had_bom
            &&& e.packet == d.packet
        },
{
    let d = packet::scanned(bytes)->Ok_0;
    let header = d.envelope.header->Some_0;
    let instruction = packet::span_bytes(d.bytes(), header);
    let tail = end + "?>"@;
    let left = kept(attributes, names);
    packet::law_scanned_spans_slice_the_text(bytes);
    text::lemma_text_bytes(d.decoded);
    text::lemma_boundary_within(
        d.bytes(),
        header.start as int,
        header.start as int,
        header.end as int,
    );
    decode_utf8_encode_utf8(instruction);
    assert(instruction == encode_utf8(header_text(attributes, end)));
    let opening = encode_utf8("<?xpacket"@);
    text::lemma_encode_concat("<?xpacket"@, attributes_text(attributes) + tail);
    text::lemma_encode_concat("<?xpacket"@, attributes_text(left) + tail);
    lemma_attributes_kept(opening, attributes, end, names);
    lemma_kept(attributes, names, name);
    lemma_header_read(attributes, end, name);
    lemma_header_read(left, end, name);
    text::lemma_text_bytes(header_text(left, end));
    assert(instruction.subrange(0, opening.len() as int) =~= opening);
    if packet::without_attributes(instruction, names) is Some {
        rewriting::lemma_header_reduced(bytes, names);
    } else {
        assert(packet::header_reduced(bytes, names) == Ok::<Seq<u8>, ErrorView>(bytes));
    }
}

/// The first of some attributes with a name.
pub proof fn lemma_first_value(s: Seq<HeaderAttribute>, name: Seq<char>)
    ensures
        match packet::first_value(pairs(s), name) {
            Some(value) => exists|i: int|
                {
                    &&& 0 <= i < s.len()
                    &&& (#[trigger] s[i]).name == name
                    &&& s[i].value == value
                    &&& forall|j: int| 0 <= j < i ==> (#[trigger] s[j]).name != name
                },
            None => forall|i: int| 0 <= i < s.len() ==> (#[trigger] s[i]).name != name,
        },
    decreases s.len(),
{
    if s.len() > 0 {
        let rest = s.drop_first();
        lemma_first_value(rest, name);
        assert(pairs(s).drop_first() =~= pairs(rest));
        assert(pairs(s)[0] == (s[0].name, s[0].value));
        if s[0].name != name {
            match packet::first_value(pairs(rest), name) {
                Some(value) => {
                    let i = choose|i: int|
                        {
                            &&& 0 <= i < rest.len()
                            &&& (#[trigger] rest[i]).name == name
                            &&& rest[i].value == value
                            &&& forall|j: int| 0 <= j < i ==> (#[trigger] rest[j]).name != name
                        };
                    assert(s[i + 1] == rest[i]);
                    assert forall|j: int| 0 <= j < i + 1 implies (#[trigger] s[j]).name != name by {
                        if j > 0 {
                            assert(rest[j - 1] == s[j]);
                        }
                    }
                },
                None => {
                    assert forall|i: int| 0 <= i < s.len() implies (#[trigger] s[i]).name
                        != name by {
                        if i > 0 {
                            assert(rest[i - 1] == s[i]);
                        }
                    }
                },
            }
        }
    }
}

/// Whether a text is a word: no white space and no `=`.
pub open spec fn is_word(word: Seq<char>) -> bool {
    &&& word.len() > 0
    &&& forall|i: int|
        0 <= i < word.len() ==> !text::is_white_char(#[trigger] word[i]) && word[i] != '='
}

proof fn lemma_read_to_word(
    front: Seq<char>,
    s: Seq<HeaderAttribute>,
    gap: Seq<char>,
    word: Seq<char>,
    space: char,
    next: char,
    rest: Seq<char>,
)
    requires
        are_attributes(s),
        is_spaces(gap),
        is_word(word),
        is_space_char(space),
        !text::is_white_char(next),
        next != '=',
    ensures
        packet::attributes_from(
            front + (attributes_text(s) + (gap + word + seq![space, next] + rest)),
            front.len() as int,
        ) == pairs(s),
    decreases s.len(),
{
    let tail = gap + word + seq![space, next] + rest;
    let chars = front + (attributes_text(s) + tail);
    if s.len() == 0 {
        let at = front.len() as int;
        let start = at + gap.len();
        let stop = start + word.len();
        assert forall|i: int| at <= i < start implies text::is_white_char(#[trigger] chars[i]) by {
            assert(chars[i] == gap[i - at]);
        }
        assert(chars[start] == word[0]);
        lemma_skips(chars, at, start);
        assert forall|i: int| start <= i < stop implies !packet::ends_name(#[trigger] chars[i]) by {
            assert(chars[i] == word[i - start]);
        }
        assert(chars[stop] == space && chars[stop + 1] == next);
        lemma_name_ends(chars, start, stop);
        lemma_skips(chars, stop, stop + 1);
        assert(packet::attribute_at(chars, at) is None);
        assert(pairs(s) =~= Seq::empty());
    } else {
        let others = attributes_text(s.drop_first()) + tail;
        let whole = front + attribute_text(s[0]);
        assert(chars =~= whole + others);
        lemma_attribute_read(front, s[0], others);
        assert(are_attributes(s.drop_first())) by {
            assert forall|i: int| 0 <= i < s.drop_first().len() implies is_attribute(
                #[trigger] s.drop_first()[i],
            ) by {
                assert(s.drop_first()[i] == s[i + 1]);
            }
        }
        lemma_read_to_word(whole, s.drop_first(), gap, word, space, next, rest);
        assert(pairs(s) =~= seq![(s[0].name, s[0].value)] + pairs(s.drop_first()));
    }
}

/// The attributes of an opening instruction are read up to a word that is none: those before it are
/// found by their names, and what stands behind it is not read.
pub proof fn law_attributes_are_read_up_to_a_stray_word(
    s: Seq<HeaderAttribute>,
    gap: Seq<char>,
    word: Seq<char>,
    space: char,
    next: char,
    rest: Seq<char>,
    name: Seq<char>,
)
    requires
        are_attributes(s),
        is_spaces(gap),
        is_word(word),
        is_space_char(space),
        !text::is_white_char(next),
        next != '=',
    ensures
        match packet::instruction_attribute(
            "<?xpacket"@ + (attributes_text(s) + (gap + word + seq![space, next] + rest)),
            name,
        ) {
            Some(value) => exists|i: int|
                {
                    &&& 0 <= i < s.len()
                    &&& (#[trigger] s[i]).name == name
                    &&& s[i].value == value
                    &&& forall|j: int| 0 <= j < i ==> (#[trigger] s[j]).name != name
                },
            None => forall|i: int| 0 <= i < s.len() ==> (#[trigger] s[i]).name != name,
        },
{
    let opening = "<?xpacket"@;
    let whole = opening + (attributes_text(s) + (gap + word + seq![space, next] + rest));
    assert(whole.subrange(0, opening.len() as int) =~= opening);
    lemma_read_to_word(opening, s, gap, word, space, next, rest);
    lemma_first_value(s, name);
}

} // verus!
