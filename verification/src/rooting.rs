//! That a root whose prefix is in the wrong case is found wherever it stands.

use vstd::prelude::*;
use vstd::string::*;
use vstd::utf8::*;

use crate::encoding;
use crate::encoding::XmpEncoding;
use crate::enveloping;
use crate::error::ErrorView;
use crate::headers;
use crate::headers::HeaderAttribute;
use crate::namespace::RDF_NAMESPACE;
use crate::nesting;
use crate::nesting::{Markup, Tag};
use crate::packet;
use crate::prefix_case;
use crate::prefix_case::TagStart;
use crate::repair;
use crate::text;
use crate::text::ByteClass;

verus! {

// ---------------------------------------------------------------------------------------------
// The search for a root
// ---------------------------------------------------------------------------------------------

/// Whether a name has the local part `RDF`: what stands behind its first colon.
pub open spec fn is_root_name(name: Seq<u8>) -> bool {
    exists|k: int|
        {
            &&& 0 <= k < name.len()
            &&& #[trigger] name[k] == 0x3A
            &&& name.subrange(k + 1, name.len() as int) == seq![0x52u8, 0x44, 0x46]
            &&& forall|i: int| 0 <= i < k ==> name[i] != 0x3A
        }
}

/// Whether a start tag holds no form feed.
pub open spec fn is_clear(t: Tag) -> bool {
    &&& forall|i: int| 0 <= i < t.attributes.len() ==> #[trigger] t.attributes[i] != 0x0C
    &&& forall|i: int| 0 <= i < t.space.len() ==> #[trigger] t.space[i] != 0x0C
}

/// Whether no element of a part has the local name `RDF`.
pub open spec fn has_no_root(m: Markup) -> bool
    decreases m,
{
    match m {
        Markup::Empty(t) => is_clear(t) && !is_root_name(t.name),
        Markup::Element(t, content, _, _) => is_clear(t) && !is_root_name(t.name) && have_no_root(
            content,
        ),
        _ => true,
    }
}

/// Whether no element of some parts has the local name `RDF`.
pub open spec fn have_no_root(s: Seq<Markup>) -> bool
    decreases s,
{
    s.len() > 0 ==> has_no_root(s[0]) && have_no_root(s.drop_first())
}

/// A search that meets no `<` goes on behind.
proof fn lemma_search_skips(b: Seq<u8>, from: int, to: int)
    requires
        0 <= from <= to,
        to + 5 < b.len(),
        forall|i: int| from <= i < to ==> #[trigger] b[i] != 0x3C,
    ensures
        prefix_case::misspelt_from(b, from) == prefix_case::misspelt_from(b, to),
    decreases to - from,
{
    if from < to {
        lemma_search_skips(b, from + 1, to);
        assert(text::scan(b, from, ByteClass::Exactly(0x3C)) == text::scan(
            b,
            from + 1,
            ByteClass::Exactly(0x3C),
        ));
    }
}

proof fn lemma_qualified_name(b: Seq<u8>, at: int, t: Tag, empty: bool)
    requires
        nesting::is_tag(t),
        is_clear(t),
        nesting::stands(b, nesting::tag_bytes(t, empty), at),
    ensures
        text::scan(b, at + 1, ByteClass::QualifiedNameEnd) == at + 1 + t.name.len(),
{
    nesting::lemma_tag_places(b, at, t, empty);
    let tag = nesting::tag_bytes(t, empty);
    let stop = at + 1 + t.name.len();
    assert forall|i: int| at + 1 <= i < stop implies !text::in_class(
        ByteClass::QualifiedNameEnd,
        #[trigger] b[i],
    ) by {
        assert(b.subrange(at + 1, stop)[i - at - 1] == b[i]);
        assert(t.name[i - at - 1] == b[i]);
    }
    let n = t.name.len() as int;
    assert(b[stop] == tag[n + 1]);
    if t.attributes.len() > 0 {
        assert(tag[n + 1] == t.attributes[0]);
    } else if empty {
        assert(tag[n + 1] == 0x2F);
    } else if t.space.len() > 0 {
        assert(tag[n + 1] == t.space[0]);
    } else {
        assert(tag[n + 1] == 0x3E);
    }
    packet::lemma_scan_stops(b, at + 1, ByteClass::QualifiedNameEnd, stop);
}

proof fn lemma_rdf_letters()
    ensures
        encode_utf8("RDF"@) == seq![0x52u8, 0x44, 0x46],
        encode_utf8("rdf"@) == seq![0x72u8, 0x64, 0x66],
        encode_utf8(":RDF"@) == seq![0x3Au8, 0x52, 0x44, 0x46],
{
    reveal_strlit("RDF");
    reveal_strlit("rdf");
    reveal_strlit(":RDF");
    text::lemma_ascii_bytes("RDF"@);
    text::lemma_ascii_bytes("rdf"@);
    text::lemma_ascii_bytes(":RDF"@);
    assert(encode_utf8("RDF"@) =~= seq![0x52u8, 0x44, 0x46]);
    assert(encode_utf8("rdf"@) =~= seq![0x72u8, 0x64, 0x66]);
    assert(encode_utf8(":RDF"@) =~= seq![0x3Au8, 0x52, 0x44, 0x46]);
}

/// A start tag that is no root is passed by.
proof fn lemma_search_tag(b: Seq<u8>, at: int, t: Tag, empty: bool)
    requires
        nesting::is_tag(t),
        is_clear(t),
        !is_root_name(t.name),
        nesting::stands(b, nesting::tag_bytes(t, empty), at),
        at + nesting::tag_bytes(t, empty).len() + 5 < b.len(),
    ensures
        prefix_case::misspelt_from(b, at) == prefix_case::misspelt_from(
            b,
            at + nesting::tag_bytes(t, empty).len(),
        ),
{
    nesting::lemma_tag_places(b, at, t, empty);
    lemma_qualified_name(b, at, t, empty);
    lemma_rdf_letters();
    let stop = at + 1 + t.name.len();
    let name = b.subrange(at + 1, stop);
    let k = text::scan(name, 0, ByteClass::Exactly(0x3A));
    text::lemma_scan(name, 0, ByteClass::Exactly(0x3A));
    if k < name.len() && name.subrange(k + 1, name.len() as int) == encode_utf8("RDF"@) {
        assert(t.name[k] == 0x3A);
        assert forall|i: int| 0 <= i < k implies t.name[i] != 0x3A by {
            assert(!text::in_class(ByteClass::Exactly(0x3A), name[i]));
        }
        assert(is_root_name(t.name));
    }
    prefix_case::lemma_tag_start(b, at);
    assert(prefix_case::tag_start(b, at + 1) == TagStart::Other(stop));
    lemma_search_skips(b, stop, at + nesting::tag_bytes(t, empty).len());
}

/// A closing tag is passed by.
proof fn lemma_search_end(b: Seq<u8>, at: int, name: Seq<u8>, space: Seq<u8>)
    requires
        nesting::is_element_name(name),
        nesting::are_blank(space),
        nesting::stands(b, nesting::end_bytes(name, space), at),
        at + nesting::end_bytes(name, space).len() + 5 < b.len(),
    ensures
        prefix_case::misspelt_from(b, at) == prefix_case::misspelt_from(
            b,
            at + nesting::end_bytes(name, space).len(),
        ),
{
    nesting::lemma_end_places(b, at, name, space);
    prefix_case::lemma_tag_start(b, at);
    assert(prefix_case::tag_start(b, at + 1) == TagStart::Other(at + 2));
    lemma_search_skips(b, at + 2, at + nesting::end_bytes(name, space).len());
}

#[verifier::rlimit(40)]
proof fn lemma_search_one(front: Seq<u8>, m: Markup, back: Seq<u8>)
    requires
        nesting::is_nested(m),
        has_no_root(m),
        back.len() > 5,
    ensures
        ({
            let b = front + nesting::markup_bytes(m, true) + back;
            prefix_case::misspelt_from(b, front.len() as int) == prefix_case::misspelt_from(
                b,
                (front.len() + nesting::markup_bytes(m, true).len()) as int,
            )
        }),
    decreases m, 1int,
{
    let part = nesting::markup_bytes(m, true);
    let b = front + part + back;
    let at = front.len() as int;
    let next = at + part.len();
    nesting::lemma_stands(front, part, back);
    match m {
        Markup::Text(s) => {
            assert forall|i: int| at <= i < next implies #[trigger] b[i] != 0x3C by {
                assert(b[i] == s[i - at]);
            }
            lemma_search_skips(b, at, next);
        },
        Markup::Aside(mark, s) => {
            assert(b[at] == part[0] && b[at + 1] == part[1]);
            assert forall|i: int| at + 1 <= i < next implies #[trigger] b[i] != 0x3C by {
                assert(b[i] == part[i - at]);
                if at + 2 <= i < next - 1 {
                    assert(part[i - at] == s[i - at - 2]);
                }
            }
            packet::lemma_scan_stops(b, at, ByteClass::Exactly(0x3C), at);
            prefix_case::lemma_tag_start(b, at);
            assert(prefix_case::tag_start(b, at + 1) == TagStart::Other(at + 2));
            lemma_search_skips(b, at + 2, next);
        },
        Markup::Empty(t) => {
            lemma_search_tag(b, at, t, true);
        },
        Markup::Element(t, content, closing, space) => {
            let open = nesting::tag_bytes(t, false);
            let inner = nesting::body_bytes(content, true);
            let close = nesting::end_bytes(t.name, space);
            assert(b =~= front + open + (inner + (close + back)));
            nesting::lemma_stands(front, open, inner + (close + back));
            assert(close.len() >= 3);
            lemma_search_tag(b, at, t, false);
            assert(b =~= (front + open) + inner + (close + back));
            lemma_search_all(front + open, content, close + back);
            assert(b =~= (front + open + inner) + close + back);
            nesting::lemma_stands(front + open + inner, close, back);
            lemma_search_end(b, at + open.len() + inner.len(), t.name, space);
        },
    }
}

proof fn lemma_search_all(front: Seq<u8>, s: Seq<Markup>, back: Seq<u8>)
    requires
        nesting::are_nested(s),
        have_no_root(s),
        back.len() > 5,
    ensures
        ({
            let b = front + nesting::body_bytes(s, true) + back;
            prefix_case::misspelt_from(b, front.len() as int) == prefix_case::misspelt_from(
                b,
                (front.len() + nesting::body_bytes(s, true).len()) as int,
            )
        }),
    decreases s, 0int,
{
    let b = front + nesting::body_bytes(s, true) + back;
    if s.len() > 0 {
        let part = nesting::markup_bytes(s[0], true);
        let tail = nesting::body_bytes(s.drop_first(), true);
        assert(b =~= front + part + (tail + back));
        lemma_search_one(front, s[0], tail + back);
        assert(b =~= (front + part) + tail + back);
        lemma_search_all(front + part, s.drop_first(), back);
    }
}

// ---------------------------------------------------------------------------------------------
// The tag that closes a root
// ---------------------------------------------------------------------------------------------

proof fn lemma_closing_skips(b: Seq<u8>, name: Seq<u8>, from: int, to: int, depth: int)
    requires
        0 <= from <= to <= b.len(),
        forall|i: int| from <= i < to ==> #[trigger] b[i] != 0x3C,
    ensures
        prefix_case::closing_from(b, name, from, depth) == prefix_case::closing_from(
            b,
            name,
            to,
            depth,
        ),
    decreases to - from,
{
    if from < to {
        lemma_closing_skips(b, name, from + 1, to, depth);
        assert(text::scan(b, from, ByteClass::Exactly(0x3C)) == text::scan(
            b,
            from + 1,
            ByteClass::Exactly(0x3C),
        ));
    }
}

proof fn lemma_closing_tag(b: Seq<u8>, at: int, t: Tag, empty: bool, name: Seq<u8>, depth: int)
    requires
        nesting::is_tag(t),
        nesting::is_element_name(name),
        nesting::stands(b, nesting::tag_bytes(t, empty), at),
    ensures
        prefix_case::closing_from(b, name, at, depth) == prefix_case::closing_from(
            b,
            name,
            at + nesting::tag_bytes(t, empty).len(),
            if t.name == name && !empty {
                depth + 1
            } else {
                depth
            },
        ),
{
    nesting::lemma_tag_places(b, at, t, empty);
    nesting::lemma_name_met(b, at + 1, t.name, name);
    repair::lemma_tag_bounds(b, at, name.len());
    if t.name != name {
        lemma_closing_skips(b, name, at + 1, at + nesting::tag_bytes(t, empty).len(), depth);
    }
}

proof fn lemma_closing_end(
    b: Seq<u8>,
    at: int,
    closed: Seq<u8>,
    space: Seq<u8>,
    name: Seq<u8>,
    depth: int,
)
    requires
        nesting::is_element_name(closed),
        nesting::are_blank(space),
        nesting::is_element_name(name),
        nesting::stands(b, nesting::end_bytes(closed, space), at),
        depth >= 1,
    ensures
        prefix_case::closing_from(b, name, at, depth) == if closed != name {
            prefix_case::closing_from(b, name, at + nesting::end_bytes(closed, space).len(), depth)
        } else if depth == 1 {
            Some(at + 2)
        } else {
            prefix_case::closing_from(
                b,
                name,
                at + nesting::end_bytes(closed, space).len(),
                depth - 1,
            )
        },
{
    nesting::lemma_end_places(b, at, closed, space);
    nesting::lemma_name_met(b, at + 2, closed, name);
    repair::lemma_tag_bounds(b, at, name.len());
    if closed != name {
        lemma_closing_skips(b, name, at + 2, at + nesting::end_bytes(closed, space).len(), depth);
    }
}

#[verifier::rlimit(40)]
proof fn lemma_closing_one(front: Seq<u8>, m: Markup, back: Seq<u8>, name: Seq<u8>, depth: int)
    requires
        nesting::is_nested(m),
        nesting::is_element_name(name),
        depth >= 1,
    ensures
        ({
            let b = front + nesting::markup_bytes(m, true) + back;
            prefix_case::closing_from(b, name, front.len() as int, depth)
                == prefix_case::closing_from(
                b,
                name,
                (front.len() + nesting::markup_bytes(m, true).len()) as int,
                depth,
            )
        }),
    decreases m, 1int,
{
    let part = nesting::markup_bytes(m, true);
    let b = front + part + back;
    let at = front.len() as int;
    let next = at + part.len();
    nesting::lemma_stands(front, part, back);
    match m {
        Markup::Text(s) => {
            assert forall|i: int| at <= i < next implies #[trigger] b[i] != 0x3C by {
                assert(b[i] == s[i - at]);
            }
            lemma_closing_skips(b, name, at, next, depth);
        },
        Markup::Aside(mark, s) => {
            assert(b[at] == part[0] && b[at + 1] == part[1]);
            assert forall|i: int| at + 1 <= i < next implies #[trigger] b[i] != 0x3C by {
                assert(b[i] == part[i - at]);
                if at + 2 <= i < next - 1 {
                    assert(part[i - at] == s[i - at - 2]);
                }
            }
            packet::lemma_scan_stops(b, at, ByteClass::Exactly(0x3C), at);
            repair::lemma_tag_bounds(b, at, name.len());
            lemma_closing_skips(b, name, at + 1, next, depth);
            if text::occurs_at(b, name, at + 1) {
                nesting::lemma_aside_named(b, at, next, name);
            }
        },
        Markup::Empty(t) => {
            lemma_closing_tag(b, at, t, true, name, depth);
        },
        Markup::Element(t, content, closing, space) => {
            let open = nesting::tag_bytes(t, false);
            let inner = nesting::body_bytes(content, true);
            let close = nesting::end_bytes(t.name, space);
            let deeper = if t.name == name {
                depth + 1
            } else {
                depth
            };
            assert(b =~= front + open + (inner + (close + back)));
            nesting::lemma_stands(front, open, inner + (close + back));
            lemma_closing_tag(b, at, t, false, name, depth);
            assert(b =~= (front + open) + inner + (close + back));
            lemma_closing_all(front + open, content, close + back, name, deeper);
            assert(b =~= (front + open + inner) + close + back);
            nesting::lemma_stands(front + open + inner, close, back);
            lemma_closing_end(b, at + open.len() + inner.len(), t.name, space, name, deeper);
        },
    }
}

proof fn lemma_closing_all(front: Seq<u8>, s: Seq<Markup>, back: Seq<u8>, name: Seq<u8>, depth: int)
    requires
        nesting::are_nested(s),
        nesting::is_element_name(name),
        depth >= 1,
    ensures
        ({
            let b = front + nesting::body_bytes(s, true) + back;
            prefix_case::closing_from(b, name, front.len() as int, depth)
                == prefix_case::closing_from(
                b,
                name,
                (front.len() + nesting::body_bytes(s, true).len()) as int,
                depth,
            )
        }),
    decreases s, 0int,
{
    let b = front + nesting::body_bytes(s, true) + back;
    if s.len() > 0 {
        let part = nesting::markup_bytes(s[0], true);
        let tail = nesting::body_bytes(s.drop_first(), true);
        assert(b =~= front + part + (tail + back));
        lemma_closing_one(front, s[0], tail + back, name, depth);
        assert(b =~= (front + part) + tail + back);
        lemma_closing_all(front + part, s.drop_first(), back, name, depth);
    }
}

// ---------------------------------------------------------------------------------------------
// The binding
// ---------------------------------------------------------------------------------------------

/// White space holds no attribute.
proof fn lemma_blank_holds_nothing(front: Seq<u8>, space: Seq<u8>, name: Seq<u8>, value: Seq<u8>)
    requires
        nesting::are_blank(space),
    ensures
        !packet::holds_attribute(front + space, front.len() as int, name, value),
{
    let b = front + space;
    let at = front.len() as int;
    if at < b.len() {
        assert forall|i: int| at <= i < b.len() implies text::is_space_byte(#[trigger] b[i]) by {
            assert(b[i] == space[i - at]);
        }
        text::lemma_scan(b, at, ByteClass::NonSpace);
        assert(text::scan(b, at, ByteClass::NonSpace) == b.len());
        packet::lemma_instruction_end();
        packet::lemma_next_space(b, at);
        assert(packet::header_step(b, at) is Malformed);
        assert(packet::next_space(b, at) == b.len());
        assert(!packet::holds_attribute(b, b.len() as int, name, value));
    }
}

/// Attributes of a tag hold an attribute just where one of them has the name and the value.
#[verifier::rlimit(40)]
proof fn lemma_tag_holds(
    front: Seq<u8>,
    s: Seq<HeaderAttribute>,
    space: Seq<u8>,
    name: Seq<char>,
    value: Seq<char>,
)
    requires
        headers::are_attributes(s),
        nesting::are_blank(space),
    ensures
        packet::holds_attribute(
            front + encode_utf8(headers::attributes_text(s)) + space,
            front.len() as int,
            encode_utf8(name),
            encode_utf8(value),
        ) == enveloping::has_attribute(s, name, value),
    decreases s.len(),
{
    let b = front + encode_utf8(headers::attributes_text(s)) + space;
    let at = front.len() as int;
    if s.len() == 0 {
        assert(encode_utf8(headers::attributes_text(s)) =~= Seq::<u8>::empty());
        assert(b =~= front + space);
        lemma_blank_holds_nothing(front, space, encode_utf8(name), encode_utf8(value));
    } else {
        let rest = headers::attributes_text(s.drop_first());
        let one = encode_utf8(headers::attribute_text(s[0]));
        let others = s.drop_first();
        text::lemma_encode_concat(headers::attribute_text(s[0]), rest);
        let after = encode_utf8(rest) + space;
        assert(b =~= front + one + after);
        assert(headers::is_attribute(s[0]));
        headers::lemma_step(front, s[0], after);
        packet::lemma_header_step(b, at);
        assert(headers::are_attributes(others)) by {
            assert forall|i: int| 0 <= i < others.len() implies headers::is_attribute(
                #[trigger] others[i],
            ) by {
                assert(others[i] == s[i + 1]);
            }
        }
        assert(b =~= (front + one) + encode_utf8(rest) + space);
        lemma_tag_holds(front + one, others, space, name, value);
        text::lemma_text_bytes(name);
        text::lemma_text_bytes(value);
        text::lemma_text_bytes(s[0].name);
        text::lemma_text_bytes(s[0].value);
        if enveloping::has_attribute(others, name, value) {
            let i = choose|i: int|
                0 <= i < others.len() && (#[trigger] others[i]).name == name && others[i].value
                    == value;
            assert(s[i + 1] == others[i]);
        }
        if enveloping::has_attribute(s, name, value) && !(s[0].name == name && s[0].value
            == value) {
            let i = choose|i: int|
                0 <= i < s.len() && (#[trigger] s[i]).name == name && s[i].value == value;
            assert(others[i - 1] == s[i]);
        }
    }
}

/// A tag with some attributes binds the lower-case prefix just where one of them does.
#[verifier::rlimit(40)]
proof fn lemma_binds(b: Seq<u8>, at: int, t: Tag, s: Seq<HeaderAttribute>)
    requires
        nesting::is_tag(t),
        nesting::stands(b, nesting::tag_bytes(t, false), at),
        headers::are_attributes(s),
        s.len() > 0,
        s[0].space.len() > 0,
        t.attributes == encode_utf8(headers::attributes_text(s)),
    ensures
        prefix_case::binds_rdf(b, at + 1 + t.name.len()) == enveloping::has_attribute(
            s,
            "xmlns:rdf"@,
            RDF_NAMESPACE@,
        ),
{
    nesting::lemma_tag_places(b, at, t, false);
    let stop = at + 1 + t.name.len();
    let tag = nesting::tag_bytes(t, false);
    let end = at + tag.len() - 1;
    assert(headers::is_attribute(s[0]));
    let first = HeaderAttribute { space: s[0].space.drop_first(), ..s[0] };
    let rest = s.drop_first();
    let shorter = seq![first] + rest;
    assert(shorter.drop_first() =~= rest);
    assert(headers::is_spaces(first.space)) by {
        assert forall|i: int| 0 <= i < first.space.len() implies headers::is_space_char(
            #[trigger] first.space[i],
        ) by {
            assert(first.space[i] == s[0].space[i + 1]);
        }
    }
    assert(headers::are_attributes(shorter)) by {
        assert forall|i: int| 0 <= i < shorter.len() implies headers::is_attribute(
            #[trigger] shorter[i],
        ) by {
            if i > 0 {
                assert(shorter[i] == s[i]);
            }
        }
    }
    let lead = seq![s[0].space[0]];
    assert(headers::attribute_text(s[0]) =~= lead + headers::attribute_text(first));
    assert(headers::attributes_text(s) =~= lead + headers::attributes_text(shorter));
    text::lemma_encode_concat(lead, headers::attributes_text(shorter));
    assert(headers::is_space_char(s[0].space[0]));
    text::lemma_ascii_bytes(lead);
    assert(encode_utf8(lead).len() == 1);
    let inner = encode_utf8(headers::attributes_text(shorter)) + t.space;
    assert(b.subrange(stop + 1, end) =~= inner) by {
        assert forall|i: int| 0 <= i < inner.len() implies b[stop + 1 + i] == #[trigger] inner[i] by {
            let k = stop + 1 + i - at;
            assert(b[at + k] == tag[k]);
            if i + 1 < t.attributes.len() {
                assert(tag[k] == t.attributes[i + 1]);
            } else {
                assert(tag[k] == t.space[i + 1 - t.attributes.len()]);
            }
        }
    }
    let none = Seq::<u8>::empty();
    assert(none + encode_utf8(headers::attributes_text(shorter)) + t.space =~= inner);
    lemma_tag_holds(none, shorter, t.space, "xmlns:rdf"@, RDF_NAMESPACE@);
    let name = "xmlns:rdf"@;
    let value = RDF_NAMESPACE@;
    if enveloping::has_attribute(s, name, value) {
        let i = choose|i: int|
            0 <= i < s.len() && (#[trigger] s[i]).name == name && s[i].value == value;
        assert(shorter[i].name == name && shorter[i].value == value);
    }
    if enveloping::has_attribute(shorter, name, value) {
        let i = choose|i: int|
            0 <= i < shorter.len() && (#[trigger] shorter[i]).name == name && shorter[i].value
                == value;
        assert(s[i].name == name && s[i].value == value);
    }
}

// ---------------------------------------------------------------------------------------------
// Roots
// ---------------------------------------------------------------------------------------------

/// Whether a prefix is `rdf` with at least one letter in upper case.
pub open spec fn is_misspelt(prefix: Seq<u8>) -> bool {
    &&& prefix.len() == 3
    &&& prefix[0] == 0x72 || prefix[0] == 0x52
    &&& prefix[1] == 0x64 || prefix[1] == 0x44
    &&& prefix[2] == 0x66 || prefix[2] == 0x46
    &&& prefix != seq![0x72u8, 0x64, 0x66]
}

/// Whether a start tag is that of a root with the given prefix in the wrong case, which declares the
/// lower-case binding among its attributes.
pub open spec fn is_misspelt_root(t: Tag, prefix: Seq<u8>, s: Seq<HeaderAttribute>) -> bool {
    &&& nesting::is_tag(t)
    &&& is_clear(t)
    &&& is_misspelt(prefix)
    &&& t.name == prefix + seq![0x3Au8, 0x52, 0x44, 0x46]
    &&& headers::are_attributes(s)
    &&& s.len() > 0
    &&& s[0].space.len() > 0
    &&& t.attributes == encode_utf8(headers::attributes_text(s))
    &&& enveloping::has_attribute(s, "xmlns:rdf"@, RDF_NAMESPACE@)
}

/// A start tag of a root is taken for one.
proof fn lemma_root_start(b: Seq<u8>, at: int, t: Tag, prefix: Seq<u8>)
    requires
        nesting::is_tag(t),
        is_clear(t),
        is_misspelt(prefix),
        t.name == prefix + seq![0x3Au8, 0x52, 0x44, 0x46],
        nesting::stands(b, nesting::tag_bytes(t, false), at),
    ensures
        prefix_case::tag_start(b, at + 1) == TagStart::Root(at + 4, at + 8),
        b.subrange(at + 1, at + 4) == prefix,
        b.subrange(at + 1, at + 8) == t.name,
        prefix_case::is_wrong_case(prefix),
{
    nesting::lemma_tag_places(b, at, t, false);
    lemma_qualified_name(b, at, t, false);
    lemma_rdf_letters();
    let name = b.subrange(at + 1, at + 8);
    assert(name == t.name);
    assert(name[0] == prefix[0] && name[1] == prefix[1] && name[2] == prefix[2] && name[3] == 0x3A);
    packet::lemma_scan_stops(name, 0, ByteClass::Exactly(0x3A), 3);
    assert(name.subrange(4, 7) =~= encode_utf8("RDF"@));
    assert(b.subrange(at + 1, at + 4) =~= prefix) by {
        assert forall|i: int| 0 <= i < 3 implies b[at + 1 + i] == #[trigger] prefix[i] by {
            assert(name[i] == b[at + 1 + i]);
        }
    }
    assert(text::equal_ignoring_case(prefix, encode_utf8("rdf"@)));
}

/// The tag that closes an element is found behind its content.
proof fn lemma_root_closes(
    front: Seq<u8>,
    t: Tag,
    content: Seq<Markup>,
    space: Seq<u8>,
    back: Seq<u8>,
)
    requires
        nesting::is_tag(t),
        nesting::are_nested(content),
        nesting::are_blank(space),
    ensures
        ({
            let inner = nesting::body_bytes(content, true);
            let b = front + inner + (nesting::end_bytes(t.name, space) + back);
            prefix_case::closing_from(b, t.name, front.len() as int, 1) == Some(
                front.len() as int + inner.len() as int + 2,
            )
        }),
{
    let inner = nesting::body_bytes(content, true);
    let close = nesting::end_bytes(t.name, space);
    let b = front + inner + (close + back);
    lemma_closing_all(front, content, close + back, t.name, 1);
    assert(b =~= (front + inner) + close + back);
    nesting::lemma_stands(front + inner, close, back);
    lemma_closing_end(b, (front.len() + inner.len()) as int, t.name, space, t.name, 1);
}

/// The bytes of a root.
pub open spec fn root_bytes(t: Tag, content: Seq<Markup>, space: Seq<u8>) -> Seq<u8> {
    nesting::tag_bytes(t, false) + nesting::body_bytes(content, true) + nesting::end_bytes(
        t.name,
        space,
    )
}

#[verifier::rlimit(40)]
proof fn lemma_root_found(
    front: Seq<u8>,
    t: Tag,
    prefix: Seq<u8>,
    s: Seq<HeaderAttribute>,
    content: Seq<Markup>,
    space: Seq<u8>,
    back: Seq<u8>,
)
    requires
        is_misspelt_root(t, prefix, s),
        nesting::are_nested(content),
        nesting::are_blank(space),
        repair::balance_from(front + root_bytes(t, content, space) + back, t.name, 0) == 0,
    ensures
        ({
            let at = front.len() as int;
            let b = front + root_bytes(t, content, space) + back;
            &&& prefix_case::misspelt_from(b, at) == Some(
                (
                    at + 1,
                    at + nesting::tag_bytes(t, false).len() + nesting::body_bytes(
                        content,
                        true,
                    ).len() + 2,
                ),
            )
            &&& b.subrange(at + 1, at + 4) == prefix
        }),
{
    let open = nesting::tag_bytes(t, false);
    let inner = nesting::body_bytes(content, true);
    let close = nesting::end_bytes(t.name, space);
    let b = front + root_bytes(t, content, space) + back;
    let at = front.len() as int;
    assert(b == front + open + (inner + (close + back))) by {
        lemma_joined(front, open, inner, close, back);
    }
    nesting::lemma_stands(front, open, inner + (close + back));
    nesting::lemma_tag_places(b, at, t, false);
    lemma_root_start(b, at, t, prefix);
    lemma_binds(b, at, t, s);
    assert(b == (front + open) + inner + (close + back)) by {
        lemma_joined(front, open, inner, close, back);
    }
    lemma_root_closes(front + open, t, content, space, back);
    let end = at + open.len() - 1;
    assert(text::scan(b, at + 8, ByteClass::Exactly(0x3E)) == end);
    assert(prefix_case::misspelt_root(b, at + 1, at + 4, at + 8) == Some(
        (at + 1, at + open.len() + inner.len() + 2),
    ));
}

/// Joining sequences in another order.
proof fn lemma_joined(a: Seq<u8>, b: Seq<u8>, c: Seq<u8>, d: Seq<u8>, e: Seq<u8>)
    ensures
        a + (b + c + d) + e == a + b + (c + (d + e)),
        a + (b + c + d) + e == (a + b) + c + (d + e),
        a + (b + c + d) + e == (a + b + c) + d + e,
{
    assert(a + (b + c + d) + e =~= a + b + (c + (d + e)));
    assert(a + (b + c + d) + e =~= (a + b) + c + (d + e));
    assert(a + (b + c + d) + e =~= (a + b + c) + d + e);
}

/// What is reported and repaired of a packet whose text has a misspelt root at an index, and the tag
/// that closes it at another.
proof fn lemma_packet_root(
    bytes: Seq<u8>,
    encoding: XmpEncoding,
    had_bom: bool,
    decoded: Seq<char>,
    open: int,
    close: int,
)
    requires
        encoding::decoded_packet(bytes) == Ok::<(XmpEncoding, bool, Seq<char>), ErrorView>(
            (encoding, had_bom, decoded),
        ),
        prefix_case::misspelt_from(encode_utf8(decoded), 0) == Some((open, close)),
    ensures
        prefix_case::prefix_mismatch(bytes) == Some(
            decode_utf8(encode_utf8(decoded).subrange(open, open + 3)),
        ),
        packet::scanned(bytes) matches Ok(d) ==> prefix_case::prefix_repaired(bytes) == Ok::<
            Option<Seq<u8>>,
            ErrorView,
        >(
            Some(
                d.respliced(
                    open,
                    close + 3,
                    encode_utf8("rdf"@) + encode_utf8(decoded).subrange(open + 3, close)
                        + encode_utf8("rdf"@),
                ),
            ),
        ),
{
}

/// A root leaves the balance of its own name as it is.
proof fn lemma_root_balance(
    front: Seq<u8>,
    t: Tag,
    content: Seq<Markup>,
    space: Seq<u8>,
    back: Seq<u8>,
)
    requires
        nesting::is_tag(t),
        nesting::are_nested(content),
        nesting::are_blank(space),
    ensures
        ({
            let root = root_bytes(t, content, space);
            let b = front + root + back;
            repair::balance_from(b, t.name, front.len() as int) == repair::balance_from(
                b,
                t.name,
                (front.len() + root.len()) as int,
            )
        }),
{
    let m = Markup::Element(t, content, t.name, space);
    assert(nesting::is_nested(m)) by {
        assert forall|i: int| 0 <= i < t.name.len() implies nesting::same_letter(
            t.name[i],
            #[trigger] t.name[i],
        ) by {}
    }
    nesting::lemma_balance_one(front, m, back, t.name);
}

/// The search reaches a root that stands behind parts without one, and the tags of the document are
/// balanced.
#[verifier::rlimit(40)]
proof fn lemma_root_reached(
    before: Seq<Markup>,
    t: Tag,
    content: Seq<Markup>,
    space: Seq<u8>,
    after: Seq<Markup>,
)
    requires
        nesting::are_nested(before),
        have_no_root(before),
        nesting::is_tag(t),
        nesting::are_nested(content),
        nesting::are_blank(space),
        nesting::are_nested(after),
        root_bytes(t, content, space).len() > 5,
    ensures
        ({
            let front = nesting::body_bytes(before, true);
            let b = front + root_bytes(t, content, space) + nesting::body_bytes(after, true);
            &&& prefix_case::misspelt_from(b, 0) == prefix_case::misspelt_from(
                b,
                front.len() as int,
            )
            &&& repair::balance_from(b, t.name, 0) == 0
        }),
{
    let front = nesting::body_bytes(before, true);
    let root = root_bytes(t, content, space);
    let back = nesting::body_bytes(after, true);
    let b = front + root + back;
    let none = Seq::<u8>::empty();
    assert(b =~= none + front + (root + back));
    lemma_search_all(none, before, root + back);
    nesting::lemma_balance_all(none, before, root + back, t.name);
    lemma_root_balance(front, t, content, space, back);
    assert(b =~= (front + root) + back + none);
    nesting::lemma_balance_all(front + root, after, none, t.name);
    assert(repair::balance_from(b, t.name, b.len() as int) == 0);
}

/// The same where the root stands in a wrapper.
#[verifier::rlimit(40)]
proof fn lemma_wrapped_root_reached(
    wrapper: Tag,
    end: Seq<u8>,
    before: Seq<Markup>,
    t: Tag,
    content: Seq<Markup>,
    space: Seq<u8>,
    after: Seq<Markup>,
)
    requires
        nesting::is_tag(wrapper),
        is_clear(wrapper),
        !is_root_name(wrapper.name),
        wrapper.name != t.name,
        nesting::are_blank(end),
        nesting::are_nested(before),
        have_no_root(before),
        nesting::is_tag(t),
        nesting::are_nested(content),
        nesting::are_blank(space),
        nesting::are_nested(after),
        root_bytes(t, content, space).len() > 5,
    ensures
        ({
            let front = nesting::tag_bytes(wrapper, false) + nesting::body_bytes(before, true);
            let b = front + root_bytes(t, content, space) + (nesting::body_bytes(after, true)
                + nesting::end_bytes(wrapper.name, end));
            &&& prefix_case::misspelt_from(b, 0) == prefix_case::misspelt_from(
                b,
                front.len() as int,
            )
            &&& repair::balance_from(b, t.name, 0) == 0
        }),
{
    let outer = nesting::tag_bytes(wrapper, false);
    let first = nesting::body_bytes(before, true);
    let front = outer + first;
    let root = root_bytes(t, content, space);
    let last = nesting::body_bytes(after, true);
    let done = nesting::end_bytes(wrapper.name, end);
    let back = last + done;
    let b = front + root + back;
    let none = Seq::<u8>::empty();
    assert(b =~= none + outer + (first + (root + back)));
    nesting::lemma_stands(none, outer, first + (root + back));
    lemma_search_tag(b, 0, wrapper, false);
    nesting::lemma_balance_tag(b, 0, wrapper, false, t.name);
    assert(b =~= outer + first + (root + back));
    lemma_search_all(outer, before, root + back);
    nesting::lemma_balance_all(outer, before, root + back, t.name);
    lemma_root_balance(front, t, content, space, back);
    assert(b =~= (front + root) + last + done);
    nesting::lemma_balance_all(front + root, after, done, t.name);
    assert(b =~= (front + root + last) + done + none);
    nesting::lemma_stands(front + root + last, done, none);
    nesting::lemma_balance_end(
        b,
        (front.len() + root.len() + last.len()) as int,
        wrapper.name,
        end,
        t.name,
    );
    assert(repair::balance_from(b, t.name, b.len() as int) == 0);
}

/// The name of a misspelt root is one of a root.
proof fn lemma_root_named(t: Tag, prefix: Seq<u8>)
    requires
        is_misspelt(prefix),
        t.name == prefix + seq![0x3Au8, 0x52, 0x44, 0x46],
    ensures
        is_root_name(t.name),
{
    assert(t.name[3] == 0x3A);
    assert(t.name.subrange(4, t.name.len() as int) =~= seq![0x52u8, 0x44, 0x46]);
}

/// Whether what is reported of a packet is the prefix of a root that opens and is closed at the
/// given indices of its text, and what is repaired is that prefix in the two tags, and nothing else.
pub open spec fn is_respelt(
    bytes: Seq<u8>,
    decoded: Seq<char>,
    prefix: Seq<u8>,
    open: int,
    close: int,
) -> bool {
    let rdf = encode_utf8("rdf"@);
    &&& prefix_case::prefix_mismatch(bytes) == Some(decode_utf8(prefix))
    &&& packet::scanned(bytes) matches Ok(d) ==> prefix_case::prefix_repaired(bytes) == Ok::<
        Option<Seq<u8>>,
        ErrorView,
    >(
        Some(
            d.respliced(
                open,
                close + 3,
                rdf + encode_utf8(decoded).subrange(open + 3, close) + rdf,
            ),
        ),
    )
}

/// What is made of a packet in which the search reaches a misspelt root.
#[verifier::rlimit(40)]
proof fn lemma_respelt(
    bytes: Seq<u8>,
    encoding: XmpEncoding,
    had_bom: bool,
    decoded: Seq<char>,
    front: Seq<u8>,
    t: Tag,
    prefix: Seq<u8>,
    s: Seq<HeaderAttribute>,
    content: Seq<Markup>,
    space: Seq<u8>,
    back: Seq<u8>,
)
    requires
        encoding::decoded_packet(bytes) == Ok::<(XmpEncoding, bool, Seq<char>), ErrorView>(
            (encoding, had_bom, decoded),
        ),
        is_misspelt_root(t, prefix, s),
        nesting::are_nested(content),
        nesting::are_blank(space),
        encode_utf8(decoded) == front + root_bytes(t, content, space) + back,
        prefix_case::misspelt_from(encode_utf8(decoded), 0) == prefix_case::misspelt_from(
            encode_utf8(decoded),
            front.len() as int,
        ),
        repair::balance_from(encode_utf8(decoded), t.name, 0) == 0,
    ensures
        is_respelt(
            bytes,
            decoded,
            prefix,
            front.len() as int + 1,
            front.len() as int + nesting::tag_bytes(t, false).len() + nesting::body_bytes(
                content,
                true,
            ).len() + 2,
        ),
{
    let open = front.len() as int + 1;
    let close = open + nesting::tag_bytes(t, false).len() + nesting::body_bytes(
        content,
        true,
    ).len() + 1;
    lemma_root_found(front, t, prefix, s, content, space, back);
    lemma_packet_root(bytes, encoding, had_bom, decoded, open, close);
}

/// A root is longer than its name.
proof fn lemma_root_length(t: Tag, content: Seq<Markup>, space: Seq<u8>)
    ensures
        root_bytes(t, content, space).len() > t.name.len(),
{
}

/// A root whose prefix is in the wrong case, and which binds the prefix in lower case, is reported
/// with its prefix, whatever nested parts without another root stand before it and whatever nested
/// parts stand in it and behind it. The repair respells the prefix in its start tag and in the tag
/// that closes it, and leaves what stands between them.
#[verifier::rlimit(40)]
pub proof fn law_misspelt_roots_are_found(
    bytes: Seq<u8>,
    encoding: XmpEncoding,
    had_bom: bool,
    decoded: Seq<char>,
    before: Seq<Markup>,
    t: Tag,
    prefix: Seq<u8>,
    s: Seq<HeaderAttribute>,
    content: Seq<Markup>,
    space: Seq<u8>,
    after: Seq<Markup>,
)
    requires
        encoding::decoded_packet(bytes) == Ok::<(XmpEncoding, bool, Seq<char>), ErrorView>(
            (encoding, had_bom, decoded),
        ),
        nesting::are_nested(before),
        have_no_root(before),
        is_misspelt_root(t, prefix, s),
        nesting::are_nested(content),
        nesting::are_blank(space),
        nesting::are_nested(after),
        encode_utf8(decoded) == nesting::body_bytes(before, true) + root_bytes(t, content, space)
            + nesting::body_bytes(after, true),
    ensures
        ({
            let open = nesting::body_bytes(before, true).len() as int + 1;
            let close = open + nesting::tag_bytes(t, false).len() + nesting::body_bytes(
                content,
                true,
            ).len() + 1;
            is_respelt(bytes, decoded, prefix, open, close)
        }),
{
    let front = nesting::body_bytes(before, true);
    let back = nesting::body_bytes(after, true);
    lemma_root_length(t, content, space);
    lemma_root_reached(before, t, content, space, after);
    lemma_respelt(bytes, encoding, had_bom, decoded, front, t, prefix, s, content, space, back);
}

/// The same where the root stands in a wrapper.
#[verifier::rlimit(40)]
pub proof fn law_misspelt_roots_are_found_in_wrappers(
    bytes: Seq<u8>,
    encoding: XmpEncoding,
    had_bom: bool,
    decoded: Seq<char>,
    wrapper: Tag,
    end: Seq<u8>,
    before: Seq<Markup>,
    t: Tag,
    prefix: Seq<u8>,
    s: Seq<HeaderAttribute>,
    content: Seq<Markup>,
    space: Seq<u8>,
    after: Seq<Markup>,
)
    requires
        encoding::decoded_packet(bytes) == Ok::<(XmpEncoding, bool, Seq<char>), ErrorView>(
            (encoding, had_bom, decoded),
        ),
        nesting::is_tag(wrapper),
        is_clear(wrapper),
        !is_root_name(wrapper.name),
        nesting::are_blank(end),
        nesting::are_nested(before),
        have_no_root(before),
        is_misspelt_root(t, prefix, s),
        nesting::are_nested(content),
        nesting::are_blank(space),
        nesting::are_nested(after),
        encode_utf8(decoded) == nesting::tag_bytes(wrapper, false) + nesting::body_bytes(
            before,
            true,
        ) + root_bytes(t, content, space) + (nesting::body_bytes(after, true)
            + nesting::end_bytes(wrapper.name, end)),
    ensures
        ({
            let open = nesting::tag_bytes(wrapper, false).len() as int + nesting::body_bytes(
                before,
                true,
            ).len() + 1;
            let close = open + nesting::tag_bytes(t, false).len() + nesting::body_bytes(
                content,
                true,
            ).len() + 1;
            is_respelt(bytes, decoded, prefix, open, close)
        }),
{
    let front = nesting::tag_bytes(wrapper, false) + nesting::body_bytes(before, true);
    let back = nesting::body_bytes(after, true) + nesting::end_bytes(wrapper.name, end);
    lemma_root_named(t, prefix);
    lemma_root_length(t, content, space);
    lemma_wrapped_root_reached(wrapper, end, before, t, content, space, after);
    lemma_respelt(bytes, encoding, had_bom, decoded, front, t, prefix, s, content, space, back);
}

} // verus!
