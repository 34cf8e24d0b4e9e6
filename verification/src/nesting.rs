//! What the repairs do to properly nested elements: each closing tag gets the name of the element
//! that it closes, and each wrapper that is left open is closed.

use vstd::prelude::*;
use vstd::string::*;
use vstd::utf8::*;

use crate::mending;
use crate::packet;
use crate::repair;
use crate::repair::TagKind;
use crate::text;
use crate::text::ByteClass;

verus! {

// ---------------------------------------------------------------------------------------------
// Nested elements
// ---------------------------------------------------------------------------------------------

/// Whether a byte is white space in a tag.
pub open spec fn is_blank(b: u8) -> bool {
    b == 0x09 || b == 0x0A || b == 0x0C || b == 0x0D || b == 0x20
}

/// Whether all of some bytes are white space.
pub open spec fn are_blank(s: Seq<u8>) -> bool {
    forall|i: int| 0 <= i < s.len() ==> is_blank(#[trigger] s[i])
}

/// Whether some bytes hold neither `<` nor `>`.
pub open spec fn is_inner(s: Seq<u8>) -> bool {
    forall|i: int| 0 <= i < s.len() ==> #[trigger] s[i] != 0x3C && s[i] != 0x3E
}

/// Whether some bytes can be the name of an element: no white space, no `<`, `>` or `/`, and at the
/// front no `!` or `?`.
pub open spec fn is_element_name(s: Seq<u8>) -> bool {
    &&& s.len() > 0
    &&& s[0] != 0x21
    &&& s[0] != 0x3F
    &&& forall|i: int|
        0 <= i < s.len() ==> #[trigger] s[i] != 0x3C && s[i] != 0x3E && s[i] != 0x2F && !is_blank(
            s[i],
        )
}

/// A start tag: its name, what stands behind the name, and the white space before its end.
pub struct Tag {
    /// Name.
    pub name: Seq<u8>,
    /// What stands behind the name, from the white space on.
    pub attributes: Seq<u8>,
    /// White space before the end of the tag.
    pub space: Seq<u8>,
}

/// Whether a start tag has a name, and behind it nothing or white space and what follows.
pub open spec fn is_tag(t: Tag) -> bool {
    &&& is_element_name(t.name)
    &&& is_inner(t.attributes)
    &&& t.attributes.len() > 0 ==> {
        &&& is_blank(t.attributes[0])
        &&& !is_blank(t.attributes.last())
        &&& t.attributes.last() != 0x2F
    }
    &&& are_blank(t.space)
}

/// A part of a body.
pub enum Markup {
    /// Character data.
    Text(Seq<u8>),
    /// A declaration or an instruction: `!` or `?`, and the rest up to the `>`.
    Aside(u8, Seq<u8>),
    /// A tag that closes itself.
    Empty(Tag),
    /// An element: its start tag, its content, and the name and the white space of its closing tag.
    Element(Tag, Seq<Markup>, Seq<u8>, Seq<u8>),
}

/// Whether two bytes are equal but for the case of a letter.
pub open spec fn same_letter(a: u8, b: u8) -> bool {
    ||| a == b
    ||| 0x41 <= a <= 0x5A && b == a + 0x20
    ||| 0x41 <= b <= 0x5A && a == b + 0x20
}

/// Whether a part of a body is properly nested, with closing names that are the opening ones but for
/// the case of letters.
pub open spec fn is_nested(m: Markup) -> bool
    decreases m,
{
    match m {
        Markup::Text(s) => forall|i: int| 0 <= i < s.len() ==> #[trigger] s[i] != 0x3C,
        Markup::Aside(mark, s) => (mark == 0x21 || mark == 0x3F) && is_inner(s),
        Markup::Empty(t) => is_tag(t),
        Markup::Element(t, content, closing, space) => {
            &&& is_tag(t)
            &&& are_nested(content)
            &&& closing.len() == t.name.len()
            &&& forall|i: int|
                0 <= i < closing.len() ==> same_letter(t.name[i], #[trigger] closing[i])
            &&& are_blank(space)
        },
    }
}

/// Whether all of some parts are properly nested.
pub open spec fn are_nested(s: Seq<Markup>) -> bool
    decreases s,
{
    s.len() > 0 ==> is_nested(s[0]) && are_nested(s.drop_first())
}

/// The bytes of a start tag.
pub open spec fn tag_bytes(t: Tag, empty: bool) -> Seq<u8> {
    seq![0x3Cu8] + t.name + t.attributes + (if empty {
        seq![0x2Fu8]
    } else {
        Seq::empty()
    }) + t.space + seq![0x3Eu8]
}

/// The bytes of a closing tag.
pub open spec fn end_bytes(name: Seq<u8>, space: Seq<u8>) -> Seq<u8> {
    seq![0x3Cu8, 0x2F] + name + space + seq![0x3Eu8]
}

/// The bytes of a part of a body: as it is written, or with each closing name as the element that it
/// closes has it.
pub open spec fn markup_bytes(m: Markup, respelt: bool) -> Seq<u8>
    decreases m,
{
    match m {
        Markup::Text(s) => s,
        Markup::Aside(mark, s) => seq![0x3Cu8, mark] + s + seq![0x3Eu8],
        Markup::Empty(t) => tag_bytes(t, true),
        Markup::Element(t, content, closing, space) => tag_bytes(t, false) + body_bytes(
            content,
            respelt,
        ) + end_bytes(
            if respelt {
                t.name
            } else {
                closing
            },
            space,
        ),
    }
}

/// The bytes of the parts of a body.
pub open spec fn body_bytes(s: Seq<Markup>, respelt: bool) -> Seq<u8>
    decreases s,
{
    if s.len() == 0 {
        Seq::empty()
    } else {
        markup_bytes(s[0], respelt) + body_bytes(s.drop_first(), respelt)
    }
}

// ---------------------------------------------------------------------------------------------
// Single tags
// ---------------------------------------------------------------------------------------------

/// Whether some bytes stand in a body at an index.
pub open spec fn stands(b: Seq<u8>, part: Seq<u8>, at: int) -> bool {
    &&& 0 <= at
    &&& at + part.len() <= b.len()
    &&& forall|i: int| at <= i < at + part.len() ==> #[trigger] b[i] == part[i - at]
}

pub proof fn lemma_stands(front: Seq<u8>, part: Seq<u8>, back: Seq<u8>)
    ensures
        stands(front + part + back, part, front.len() as int),
{
}

proof fn lemma_trimmed_is(b: Seq<u8>, end: int, at: int)
    requires
        0 < at <= end <= b.len(),
        forall|i: int| at <= i < end ==> is_blank(#[trigger] b[i]),
        !is_blank(b[at - 1]),
    ensures
        text::space_trimmed_end(b, end) == at,
    decreases end - at,
{
    if at < end {
        assert(is_blank(b[end - 1]));
        lemma_trimmed_is(b, end - 1, at);
    }
}

/// Where the parts of a start tag stand.
pub proof fn lemma_tag_places(b: Seq<u8>, at: int, t: Tag, empty: bool)
    requires
        is_tag(t),
        stands(b, tag_bytes(t, empty), at),
    ensures
        ({
            let stop = at + 1 + t.name.len();
            let end = at + tag_bytes(t, empty).len() - 1;
            &&& text::scan(b, at, ByteClass::Exactly(0x3C)) == at
            &&& at + 1 < stop <= end < b.len()
            &&& b[at] == 0x3C
            &&& b[at + 1] == t.name[0]
            &&& b.subrange(at + 1, stop) == t.name
            &&& text::in_class(ByteClass::TagNameEnd, b[stop])
            &&& text::scan(b, at + 1, ByteClass::TagNameEnd) == stop
            &&& text::scan(b, stop, ByteClass::Exactly(0x3E)) == end
            &&& repair::self_closing(b, end) == empty
            &&& forall|i: int| at < i <= end ==> #[trigger] b[i] != 0x3C
        }),
{
    let tag = tag_bytes(t, empty);
    let slash: Seq<u8> = if empty {
        seq![0x2Fu8]
    } else {
        Seq::empty()
    };
    let stop = at + 1 + t.name.len();
    let middle = stop + t.attributes.len();
    let blank = middle + slash.len();
    let end = at + tag.len() - 1;
    assert(end == blank + t.space.len());
    assert(b[at] == tag[0]);
    assert(b[end] == tag[tag.len() - 1]);
    assert forall|i: int| at < i < stop implies #[trigger] b[i] == t.name[i - at - 1] by {
        assert(tag[i - at] == t.name[i - at - 1]);
    }
    assert forall|i: int| stop <= i < middle implies #[trigger] b[i] == t.attributes[i - stop] by {
        assert(tag[i - at] == t.attributes[i - stop]);
    }
    assert forall|i: int| middle <= i < blank implies #[trigger] b[i] == 0x2F by {
        assert(tag[i - at] == slash[i - middle]);
    }
    assert forall|i: int| blank <= i < end implies is_blank(#[trigger] b[i]) by {
        assert(tag[i - at] == t.space[i - blank]);
    }
    assert(b.subrange(at + 1, stop) =~= t.name);
    assert(b[at + 1] == t.name[0]);
    packet::lemma_scan_stops(b, at, ByteClass::Exactly(0x3C), at);
    assert(text::in_class(ByteClass::TagNameEnd, b[stop]));
    packet::lemma_scan_stops(b, at + 1, ByteClass::TagNameEnd, stop);
    packet::lemma_scan_stops(b, stop, ByteClass::Exactly(0x3E), end);
    assert(b[blank - 1] == if empty {
        0x2F
    } else if t.attributes.len() > 0 {
        t.attributes.last()
    } else {
        t.name.last()
    });
    lemma_trimmed_is(b, end, blank);
}

/// Where the parts of a closing tag stand.
pub proof fn lemma_end_places(b: Seq<u8>, at: int, name: Seq<u8>, space: Seq<u8>)
    requires
        are_blank(space),
        forall|i: int|
            0 <= i < name.len() ==> #[trigger] name[i] != 0x3C && name[i] != 0x3E && name[i] != 0x2F
                && !is_blank(name[i]),
        stands(b, end_bytes(name, space), at),
    ensures
        ({
            let stop = at + 2 + name.len();
            let end = at + end_bytes(name, space).len() - 1;
            &&& text::scan(b, at, ByteClass::Exactly(0x3C)) == at
            &&& at + 2 <= stop <= end < b.len()
            &&& b[at] == 0x3C
            &&& b[at + 1] == 0x2F
            &&& b.subrange(at + 2, stop) == name
            &&& b.subrange(stop, end + 1) == space + seq![0x3Eu8]
            &&& text::in_class(ByteClass::TagNameEnd, b[stop])
            &&& text::scan(b, at + 2, ByteClass::TagNameEnd) == stop
            &&& text::scan(b, stop, ByteClass::Exactly(0x3E)) == end
            &&& forall|i: int| at < i <= end ==> #[trigger] b[i] != 0x3C
        }),
{
    let tag = end_bytes(name, space);
    let stop = at + 2 + name.len();
    let end = at + tag.len() - 1;
    assert(b[at] == tag[0]);
    assert(b[at + 1] == tag[1]);
    assert(b[end] == tag[tag.len() - 1]);
    assert forall|i: int| at + 2 <= i < stop implies #[trigger] b[i] == name[i - at - 2] by {
        assert(tag[i - at] == name[i - at - 2]);
    }
    assert forall|i: int| stop <= i < end implies #[trigger] b[i] == space[i - stop] by {
        assert(tag[i - at] == space[i - stop]);
    }
    assert forall|i: int| stop <= i < end implies is_blank(#[trigger] b[i]) by {
        assert(b[i] == space[i - stop]);
    }
    assert(b.subrange(at + 2, stop) =~= name);
    assert(b.subrange(stop, end + 1) =~= space + seq![0x3Eu8]);
    packet::lemma_scan_stops(b, at, ByteClass::Exactly(0x3C), at);
    packet::lemma_scan_stops(b, at + 2, ByteClass::TagNameEnd, stop);
    packet::lemma_scan_stops(b, stop, ByteClass::Exactly(0x3E), end);
}

// ---------------------------------------------------------------------------------------------
// Closing names
// ---------------------------------------------------------------------------------------------

/// Bytes before the next tag stay as they are.
proof fn lemma_cased_skips(b: Seq<u8>, cursor: int, to: int, names: Seq<Seq<u8>>)
    requires
        0 <= cursor <= to <= b.len(),
        forall|i: int| cursor <= i < to ==> #[trigger] b[i] != 0x3C,
    ensures
        repair::cased_from(b, cursor, names) == b.subrange(cursor, to) + repair::cased_from(
            b,
            to,
            names,
        ),
    decreases to - cursor,
{
    if cursor < to {
        lemma_cased_skips(b, cursor + 1, to, names);
        repair::lemma_tag_from(b, cursor);
        assert(text::scan(b, cursor, ByteClass::Exactly(0x3C)) == text::scan(
            b,
            cursor + 1,
            ByteClass::Exactly(0x3C),
        ));
        let next = cursor + 1;
        assert(repair::cased_from(b, cursor, names) == b.subrange(cursor, next)
            + repair::cased_from(b, next, names)) by {
            if next < b.len() {
                repair::lemma_tag_from(b, next);
                assert(repair::tag_from(b, cursor) == repair::tag_from(b, next));
                let rest = repair::cased_from(b, next, names);
                match repair::tag_from(b, cursor) {
                    TagKind::Last => {
                        assert(b.subrange(cursor, b.len() as int) =~= b.subrange(cursor, next)
                            + b.subrange(next, b.len() as int));
                    },
                    TagKind::Skipped(end) | TagKind::Empty(end) | TagKind::Open(_, _, end) => {
                        assert(b.subrange(cursor, end) =~= b.subrange(cursor, next) + b.subrange(
                            next,
                            end,
                        ));
                        lemma_join(b.subrange(cursor, next), b.subrange(next, end), rest);
                        assert(repair::cased_from(b, cursor, names) =~= b.subrange(cursor, next)
                            + rest);
                    },
                    TagKind::Close(start, end, after) => {
                        assert(b.subrange(cursor, start) =~= b.subrange(cursor, next) + b.subrange(
                            next,
                            start,
                        ));
                        assert(repair::cased_from(b, cursor, names) =~= b.subrange(cursor, next)
                            + rest);
                    },
                }
            } else {
                assert(text::scan(b, cursor, ByteClass::Exactly(0x3C)) == b.len());
                assert(repair::cased_from(b, cursor, names) =~= b.subrange(cursor, next)
                    + repair::cased_from(b, next, names));
            }
        }
        assert(b.subrange(cursor, to) =~= b.subrange(cursor, next) + b.subrange(next, to));
        lemma_join(
            b.subrange(cursor, next),
            b.subrange(next, to),
            repair::cased_from(b, to, names),
        );
    } else {
        assert(b.subrange(cursor, to) + repair::cased_from(b, to, names) =~= repair::cased_from(
            b,
            to,
            names,
        ));
    }
}

proof fn lemma_join(a: Seq<u8>, b: Seq<u8>, c: Seq<u8>)
    ensures
        a + b + c == a + (b + c),
{
    assert(a + b + c =~= a + (b + c));
}

proof fn lemma_same_letters(a: Seq<u8>, b: Seq<u8>)
    requires
        a.len() == b.len(),
        forall|i: int| 0 <= i < b.len() ==> same_letter(a[i], #[trigger] b[i]),
    ensures
        text::equal_ignoring_case(a, b),
        forall|i: int|
            0 <= i < b.len() && #[trigger] b[i] != a[i] ==> 0x41 <= b[i] <= 0x5A || 0x61 <= b[i]
                <= 0x7A,
{
    assert forall|i: int| 0 <= i < a.len() implies text::lower_byte(a[i]) == text::lower_byte(
        b[i],
    ) by {
        assert(same_letter(a[i], b[i]));
    }
    assert forall|i: int| 0 <= i < b.len() && #[trigger] b[i] != a[i] implies 0x41 <= b[i] <= 0x5A
        || 0x61 <= b[i] <= 0x7A by {
        assert(same_letter(a[i], b[i]));
    }
}

proof fn lemma_same_length(m: Markup)
    requires
        is_nested(m),
    ensures
        markup_bytes(m, true).len() == markup_bytes(m, false).len(),
    decreases m,
{
    if let Markup::Element(_, content, _, _) = m {
        lemma_same_lengths(content);
    }
}

proof fn lemma_same_lengths(s: Seq<Markup>)
    requires
        are_nested(s),
    ensures
        body_bytes(s, true).len() == body_bytes(s, false).len(),
    decreases s,
{
    if s.len() > 0 {
        lemma_same_length(s[0]);
        lemma_same_lengths(s.drop_first());
    }
}

/// A start tag stays and its element is open behind it.
proof fn lemma_cased_open(b: Seq<u8>, at: int, t: Tag, names: Seq<Seq<u8>>)
    requires
        is_tag(t),
        stands(b, tag_bytes(t, false), at),
    ensures
        repair::cased_from(b, at, names) == tag_bytes(t, false) + repair::cased_from(
            b,
            at + tag_bytes(t, false).len(),
            names.push(t.name),
        ),
{
    let open = tag_bytes(t, false);
    let inside = at + open.len();
    lemma_tag_places(b, at, t, false);
    assert(repair::tag_from(b, at) == TagKind::Open(at + 1, at + 1 + t.name.len(), inside));
    assert(b.subrange(at, inside) =~= open);
}

/// A closing tag gets the name of the innermost open element.
proof fn lemma_cased_end(
    b: Seq<u8>,
    at: int,
    name: Seq<u8>,
    closing: Seq<u8>,
    space: Seq<u8>,
    names: Seq<Seq<u8>>,
)
    requires
        is_element_name(name),
        closing.len() == name.len(),
        forall|i: int| 0 <= i < closing.len() ==> same_letter(name[i], #[trigger] closing[i]),
        are_blank(space),
        stands(b, end_bytes(closing, space), at),
    ensures
        repair::cased_from(b, at, names.push(name)) == end_bytes(name, space) + repair::cased_from(
            b,
            at + end_bytes(closing, space).len(),
            names,
        ),
{
    let deeper = names.push(name);
    let next = at + end_bytes(closing, space).len();
    lemma_same_letters(name, closing);
    assert forall|i: int| 0 <= i < closing.len() implies #[trigger] closing[i] != 0x3C && closing[i]
        != 0x3E && closing[i] != 0x2F && !is_blank(closing[i]) by {
        assert(name[i] != 0x3C);
    }
    lemma_end_places(b, at, closing, space);
    let stop = at + 2 + closing.len();
    assert(repair::tag_from(b, at) == TagKind::Close(at + 2, stop, next));
    assert(deeper.last() == name);
    assert(deeper.drop_last() =~= names);
    let rest = repair::cased_from(b, next, names);
    let mark = seq![0x3Cu8, 0x2F];
    assert(b.subrange(at, at + 2) =~= mark);
    assert(repair::cased_from(b, at, deeper) == mark + name + (space + seq![0x3Eu8]) + rest);
    assert(mark + name + (space + seq![0x3Eu8]) =~= end_bytes(name, space));
}

/// A part of a body without content of its own stays as it is.
proof fn lemma_cased_flat(b: Seq<u8>, at: int, m: Markup, names: Seq<Seq<u8>>)
    requires
        is_nested(m),
        !(m is Element),
        stands(b, markup_bytes(m, false), at),
    ensures
        repair::cased_from(b, at, names) == markup_bytes(m, true) + repair::cased_from(
            b,
            at + markup_bytes(m, false).len(),
            names,
        ),
{
    let part = markup_bytes(m, false);
    let next = at + part.len();
    assert(b.subrange(at, next) =~= part);
    match m {
        Markup::Text(s) => {
            assert forall|i: int| at <= i < next implies #[trigger] b[i] != 0x3C by {
                assert(b[i] == s[i - at]);
            }
            lemma_cased_skips(b, at, next, names);
        },
        Markup::Aside(mark, s) => {
            assert(b[at] == part[0] && b[at + 1] == part[1] && b[next - 1] == part[next - 1 - at]);
            assert forall|i: int| at + 2 <= i < next - 1 implies #[trigger] b[i] != 0x3E by {
                assert(b[i] == part[i - at]);
                assert(part[i - at] == s[i - at - 2]);
            }
            packet::lemma_scan_stops(b, at, ByteClass::Exactly(0x3C), at);
            packet::lemma_scan_stops(b, at + 2, ByteClass::Exactly(0x3E), next - 1);
            assert(repair::tag_from(b, at) == TagKind::Skipped(next));
        },
        Markup::Empty(t) => {
            lemma_tag_places(b, at, t, true);
            assert(repair::tag_from(b, at) == TagKind::Empty(next));
        },
        Markup::Element(..) => {},
    }
}

/// One part of a body gets its closing names right, whatever stands before and behind it.
proof fn lemma_cased_one(front: Seq<u8>, m: Markup, back: Seq<u8>, names: Seq<Seq<u8>>)
    requires
        is_nested(m),
    ensures
        ({
            let b = front + markup_bytes(m, false) + back;
            repair::cased_from(b, front.len() as int, names) == markup_bytes(m, true)
                + repair::cased_from(
                b,
                (front.len() + markup_bytes(m, false).len()) as int,
                names,
            )
        }),
    decreases m, 1int,
{
    let part = markup_bytes(m, false);
    let b = front + part + back;
    let at = front.len() as int;
    if let Markup::Element(t, content, closing, space) = m {
        let open = tag_bytes(t, false);
        let inner = body_bytes(content, false);
        let right = body_bytes(content, true);
        let close = end_bytes(closing, space);
        let deeper = names.push(t.name);
        let behind = at + open.len() + inner.len();
        let rest = repair::cased_from(b, behind + close.len(), names);
        assert(b =~= front + open + (inner + (close + back)));
        lemma_stands(front, open, inner + (close + back));
        lemma_cased_open(b, at, t, names);
        assert(b =~= (front + open) + inner + (close + back));
        lemma_cased_all(front + open, content, close + back, deeper);
        assert(b =~= (front + open + inner) + close + back);
        lemma_stands(front + open + inner, close, back);
        lemma_cased_end(b, behind, t.name, closing, space, names);
        lemma_regrouped(open, right, end_bytes(t.name, space), rest);
    } else {
        lemma_stands(front, part, back);
        lemma_cased_flat(b, at, m, names);
    }
}

proof fn lemma_regrouped(a: Seq<u8>, b: Seq<u8>, c: Seq<u8>, d: Seq<u8>)
    ensures
        a + (b + (c + d)) == a + b + c + d,
{
    assert(a + (b + (c + d)) =~= a + b + c + d);
}

/// The parts of a body get their closing names right, whatever stands before and behind them.
proof fn lemma_cased_all(front: Seq<u8>, s: Seq<Markup>, back: Seq<u8>, names: Seq<Seq<u8>>)
    requires
        are_nested(s),
    ensures
        ({
            let b = front + body_bytes(s, false) + back;
            repair::cased_from(b, front.len() as int, names) == body_bytes(s, true)
                + repair::cased_from(
                b,
                (front.len() + body_bytes(s, false).len()) as int,
                names,
            )
        }),
    decreases s, 0int,
{
    let b = front + body_bytes(s, false) + back;
    if s.len() == 0 {
        assert(b =~= front + back);
        assert(repair::cased_from(b, front.len() as int, names) =~= body_bytes(s, true)
            + repair::cased_from(b, front.len() as int, names));
    } else {
        let part = markup_bytes(s[0], false);
        let rest = s.drop_first();
        let tail = body_bytes(rest, false);
        assert(b =~= front + part + (tail + back));
        lemma_cased_one(front, s[0], tail + back, names);
        assert(b =~= (front + part) + tail + back);
        lemma_cased_all(front + part, rest, back, names);
        lemma_join(
            markup_bytes(s[0], true),
            body_bytes(rest, true),
            repair::cased_from(b, (front.len() + body_bytes(s, false).len()) as int, names),
        );
    }
}

/// In a body of properly nested elements, some of which may close themselves, whose closing names are
/// the opening ones but for the case of letters, each closing name becomes the opening name of the
/// element that it closes, and nothing else changes.
pub proof fn law_closing_names_become_those_of_their_elements(s: Seq<Markup>)
    requires
        are_nested(s),
    ensures
        repair::close_case_repaired(body_bytes(s, false)) == if body_bytes(s, true) == body_bytes(
            s,
            false,
        ) {
            None
        } else {
            Some(body_bytes(s, true))
        },
{
    let none = Seq::<u8>::empty();
    let b = body_bytes(s, false);
    assert(none + b + none =~= b);
    lemma_cased_all(none, s, none, Seq::empty());
    assert(repair::cased_from(b, 0, Seq::empty()) =~= body_bytes(s, true));
}

// ---------------------------------------------------------------------------------------------
// Open wrappers
// ---------------------------------------------------------------------------------------------

/// A name in a tag is the name of the tag where a search for it stops there.
pub proof fn lemma_name_met(b: Seq<u8>, at: int, name: Seq<u8>, wanted: Seq<u8>)
    requires
        0 <= at,
        at + name.len() < b.len(),
        b.subrange(at, at + name.len()) == name,
        text::in_class(ByteClass::TagNameEnd, b[at + name.len()]),
        forall|i: int| 0 <= i < name.len() ==> #[trigger] name[i] != 0x3E && name[i] != 0x2F
            && !is_blank(name[i]),
        forall|i: int| 0 <= i < wanted.len() ==> #[trigger] wanted[i] != 0x3E && wanted[i] != 0x2F
            && !is_blank(wanted[i]),
    ensures
        text::occurs_at(b, wanted, at) && at + wanted.len() < b.len() && text::in_class(
            ByteClass::TagNameEnd,
            b[at + wanted.len()],
        ) <==> wanted == name,
{
    if text::occurs_at(b, wanted, at) && at + wanted.len() < b.len() && text::in_class(
        ByteClass::TagNameEnd,
        b[at + wanted.len()],
    ) {
        if wanted.len() < name.len() {
            let k = wanted.len() as int;
            assert(b.subrange(at, at + name.len())[k] == b[at + k]);
            assert(name[k] == b[at + k]);
        }
        if name.len() < wanted.len() {
            let k = name.len() as int;
            assert(b.subrange(at, at + wanted.len())[k] == b[at + k]);
            assert(wanted[k] == b[at + k]);
        }
    }
}

/// A start tag opens one more element of its own name, unless it closes itself.
pub proof fn lemma_balance_tag(b: Seq<u8>, at: int, t: Tag, empty: bool, wanted: Seq<u8>)
    requires
        is_tag(t),
        is_element_name(wanted),
        stands(b, tag_bytes(t, empty), at),
    ensures
        repair::balance_from(b, wanted, at) == repair::balance_from(
            b,
            wanted,
            at + tag_bytes(t, empty).len(),
        ) + if t.name == wanted && !empty {
            1int
        } else {
            0
        },
{
    lemma_tag_places(b, at, t, empty);
    lemma_name_met(b, at + 1, t.name, wanted);
    if t.name != wanted {
        mending::lemma_balance_skips(b, wanted, at + 1, at + tag_bytes(t, empty).len());
    }
}

/// A closing tag closes one element of its name.
pub proof fn lemma_balance_end(
    b: Seq<u8>,
    at: int,
    name: Seq<u8>,
    space: Seq<u8>,
    wanted: Seq<u8>,
)
    requires
        is_element_name(name),
        are_blank(space),
        is_element_name(wanted),
        stands(b, end_bytes(name, space), at),
    ensures
        repair::balance_from(b, wanted, at) == repair::balance_from(
            b,
            wanted,
            at + end_bytes(name, space).len(),
        ) - if name == wanted {
            1int
        } else {
            0
        },
{
    lemma_end_places(b, at, name, space);
    lemma_name_met(b, at + 2, name, wanted);
    if name != wanted {
        mending::lemma_balance_skips(b, wanted, at + 2, at + end_bytes(name, space).len());
    }
}

/// A properly nested part leaves the balance as it is.
pub proof fn lemma_balance_one(front: Seq<u8>, m: Markup, back: Seq<u8>, wanted: Seq<u8>)
    requires
        is_nested(m),
        is_element_name(wanted),
    ensures
        ({
            let b = front + markup_bytes(m, true) + back;
            repair::balance_from(b, wanted, front.len() as int) == repair::balance_from(
                b,
                wanted,
                (front.len() + markup_bytes(m, true).len()) as int,
            )
        }),
    decreases m, 1int,
{
    let part = markup_bytes(m, true);
    let b = front + part + back;
    let at = front.len() as int;
    let next = at + part.len();
    lemma_stands(front, part, back);
    match m {
        Markup::Text(s) => {
            assert forall|i: int| at <= i < next implies #[trigger] b[i] != 0x3C by {
                assert(b[i] == s[i - at]);
            }
            mending::lemma_balance_skips(b, wanted, at, next);
        },
        Markup::Aside(mark, s) => {
            assert(b[at] == part[0] && b[at + 1] == part[1]);
            assert forall|i: int| at + 1 <= i < next implies #[trigger] b[i] != 0x3C by {
                assert(b[i] == part[i - at]);
                if at + 2 <= i < next - 1 {
                    assert(part[i - at] == s[i - at - 2]);
                }
            }
            packet::lemma_scan_stops(b, at, ByteClass::Exactly(0x3C), at);
            repair::lemma_tag_bounds(b, at, wanted.len());
            mending::lemma_balance_skips(b, wanted, at + 1, next);
            if text::occurs_at(b, wanted, at + 1) {
                lemma_aside_named(b, at, next, wanted);
            }
        },
        Markup::Empty(t) => {
            lemma_balance_tag(b, at, t, true, wanted);
        },
        Markup::Element(t, content, closing, space) => {
            let open = tag_bytes(t, false);
            let inner = body_bytes(content, true);
            let close = end_bytes(t.name, space);
            assert(b =~= front + open + (inner + (close + back)));
            lemma_stands(front, open, inner + (close + back));
            lemma_balance_tag(b, at, t, false, wanted);
            assert(b =~= (front + open) + inner + (close + back));
            lemma_balance_all(front + open, content, close + back, wanted);
            assert(b =~= (front + open + inner) + close + back);
            lemma_stands(front + open + inner, close, back);
            lemma_balance_end(b, at + open.len() + inner.len(), t.name, space, wanted);
        },
    }
}

/// A declaration has no name that a search for a wrapper stops at.
pub proof fn lemma_aside_named(b: Seq<u8>, at: int, next: int, wanted: Seq<u8>)
    requires
        0 <= at,
        at + 1 < b.len(),
        b[at + 1] == 0x21 || b[at + 1] == 0x3F,
        text::occurs_at(b, wanted, at + 1),
        wanted.len() > 0,
    ensures
        wanted[0] == 0x21 || wanted[0] == 0x3F,
{
    assert(b.subrange(at + 1, at + 1 + wanted.len())[0] == b[at + 1]);
}

/// Properly nested parts leave the balance as it is.
pub proof fn lemma_balance_all(front: Seq<u8>, s: Seq<Markup>, back: Seq<u8>, wanted: Seq<u8>)
    requires
        are_nested(s),
        is_element_name(wanted),
    ensures
        ({
            let b = front + body_bytes(s, true) + back;
            repair::balance_from(b, wanted, front.len() as int) == repair::balance_from(
                b,
                wanted,
                (front.len() + body_bytes(s, true).len()) as int,
            )
        }),
    decreases s, 0int,
{
    let b = front + body_bytes(s, true) + back;
    if s.len() > 0 {
        let part = markup_bytes(s[0], true);
        let tail = body_bytes(s.drop_first(), true);
        assert(b =~= front + part + (tail + back));
        lemma_balance_one(front, s[0], tail + back, wanted);
        assert(b =~= (front + part) + tail + back);
        lemma_balance_all(front + part, s.drop_first(), back, wanted);
    }
}

/// An element that is left open: its start tag and what stands behind it.
pub struct Opened {
    /// The start tag.
    pub tag: Tag,
    /// What stands behind the start tag.
    pub content: Seq<Markup>,
}

/// Whether all of some elements are left open and hold properly nested parts.
pub open spec fn are_opened(s: Seq<Opened>) -> bool {
    forall|i: int| 0 <= i < s.len() ==> is_tag((#[trigger] s[i]).tag) && are_nested(s[i].content)
}

/// The bytes of elements that are left open, one in the other.
pub open spec fn opened_bytes(s: Seq<Opened>, respelt: bool) -> Seq<u8>
    decreases s.len(),
{
    if s.len() == 0 {
        Seq::empty()
    } else {
        tag_bytes(s[0].tag, false) + body_bytes(s[0].content, respelt) + opened_bytes(
            s.drop_first(),
            respelt,
        )
    }
}

/// Whether an element with the given name is left open.
pub open spec fn is_left_open(s: Seq<Opened>, name: Seq<u8>) -> bool {
    exists|i: int| 0 <= i < s.len() && (#[trigger] s[i]).tag.name == name
}

/// The bytes of a body: properly nested parts, elements that are left open, and white space.
pub open spec fn open_body(s: Seq<Markup>, opened: Seq<Opened>, space: Seq<u8>, respelt: bool) -> Seq<
    u8,
> {
    body_bytes(s, respelt) + opened_bytes(opened, respelt) + space
}

/// The closing tag of a wrapper where it is left open.
pub open spec fn added(opened: Seq<Opened>, name: Seq<char>) -> Seq<u8> {
    if is_left_open(opened, encode_utf8(name)) {
        end_bytes(encode_utf8(name), Seq::empty())
    } else {
        Seq::empty()
    }
}

proof fn lemma_balance_opened(
    front: Seq<u8>,
    s: Seq<Opened>,
    back: Seq<u8>,
    wanted: Seq<u8>,
)
    requires
        are_opened(s),
        is_element_name(wanted),
    ensures
        ({
            let b = front + opened_bytes(s, true) + back;
            let here = repair::balance_from(b, wanted, front.len() as int);
            let there = repair::balance_from(
                b,
                wanted,
                (front.len() + opened_bytes(s, true).len()) as int,
            );
            &&& here >= there
            &&& here > there <==> is_left_open(s, wanted)
        }),
    decreases s.len(),
{
    let b = front + opened_bytes(s, true) + back;
    if s.len() > 0 {
        let open = tag_bytes(s[0].tag, false);
        let inner = body_bytes(s[0].content, true);
        let rest = s.drop_first();
        let tail = opened_bytes(rest, true);
        assert(is_tag(s[0].tag) && are_nested(s[0].content));
        assert(b =~= front + open + (inner + (tail + back)));
        lemma_stands(front, open, inner + (tail + back));
        lemma_balance_tag(b, front.len() as int, s[0].tag, false, wanted);
        assert(b =~= (front + open) + inner + (tail + back));
        lemma_balance_all(front + open, s[0].content, tail + back, wanted);
        assert(b =~= (front + open + inner) + tail + back);
        assert forall|i: int| 0 <= i < rest.len() implies is_tag((#[trigger] rest[i]).tag)
            && are_nested(rest[i].content) by {
            assert(rest[i] == s[i + 1]);
        }
        lemma_balance_opened(front + open + inner, rest, back, wanted);
        if is_left_open(rest, wanted) {
            let i = choose|i: int| 0 <= i < rest.len() && (#[trigger] rest[i]).tag.name == wanted;
            assert(s[i + 1].tag.name == wanted);
        }
        if is_left_open(s, wanted) && s[0].tag.name != wanted {
            let i = choose|i: int| 0 <= i < s.len() && (#[trigger] s[i]).tag.name == wanted;
            assert(rest[i - 1].tag.name == wanted);
        }
    }
}

/// The balance of a wrapper in a body.
proof fn lemma_body_balance(s: Seq<Markup>, opened: Seq<Opened>, space: Seq<u8>, wanted: Seq<u8>)
    requires
        are_nested(s),
        are_opened(opened),
        are_blank(space),
        is_element_name(wanted),
    ensures
        repair::balance_from(open_body(s, opened, space, true), wanted, 0) >= 0,
        repair::balance_from(open_body(s, opened, space, true), wanted, 0) > 0 <==> is_left_open(
            opened,
            wanted,
        ),
{
    let b = open_body(s, opened, space, true);
    let first = body_bytes(s, true);
    let second = opened_bytes(opened, true);
    let none = Seq::<u8>::empty();
    let end = (first.len() + second.len()) as int;
    assert(b =~= none + first + (second + space));
    lemma_balance_all(none, s, second + space, wanted);
    lemma_balance_opened(first, opened, space, wanted);
    assert forall|i: int| end <= i < b.len() implies #[trigger] b[i] != 0x3C by {
        assert(b[i] == space[i - end]);
    }
    mending::lemma_balance_skips(b, wanted, end, b.len() as int);
}

proof fn lemma_cased_opened(
    front: Seq<u8>,
    s: Seq<Opened>,
    space: Seq<u8>,
    names: Seq<Seq<u8>>,
)
    requires
        are_opened(s),
        are_blank(space),
    ensures
        repair::cased_from(
            front + opened_bytes(s, false) + space,
            front.len() as int,
            names,
        ) == opened_bytes(s, true) + space,
    decreases s.len(),
{
    let b = front + opened_bytes(s, false) + space;
    let at = front.len() as int;
    if s.len() == 0 {
        assert forall|i: int| at <= i < b.len() implies #[trigger] b[i] != 0x3C by {
            assert(b[i] == space[i - at]);
        }
        lemma_cased_skips(b, at, b.len() as int, names);
        assert(b.subrange(at, b.len() as int) =~= space);
        assert(repair::cased_from(b, at, names) =~= opened_bytes(s, true) + space);
    } else {
        let open = tag_bytes(s[0].tag, false);
        let inner = body_bytes(s[0].content, false);
        let rest = s.drop_first();
        let tail = opened_bytes(rest, false);
        let deeper = names.push(s[0].tag.name);
        assert(is_tag(s[0].tag) && are_nested(s[0].content));
        assert(b =~= front + open + (inner + (tail + space)));
        lemma_stands(front, open, inner + (tail + space));
        lemma_cased_open(b, at, s[0].tag, names);
        assert(b =~= (front + open) + inner + (tail + space));
        lemma_cased_all(front + open, s[0].content, tail + space, deeper);
        assert(b =~= (front + open + inner) + tail + space);
        assert forall|i: int| 0 <= i < rest.len() implies is_tag((#[trigger] rest[i]).tag)
            && are_nested(rest[i].content) by {
            assert(rest[i] == s[i + 1]);
        }
        lemma_cased_opened(front + open + inner, rest, space, deeper);
        lemma_regrouped(open, body_bytes(s[0].content, true), opened_bytes(rest, true), space);
    }
}

/// In a body of properly nested parts and of elements that are left open, each closing name becomes
/// that of the element that it closes.
proof fn lemma_cased_body(s: Seq<Markup>, opened: Seq<Opened>, space: Seq<u8>)
    requires
        are_nested(s),
        are_opened(opened),
        are_blank(space),
    ensures
        repair::cased_from(open_body(s, opened, space, false), 0, Seq::empty()) == open_body(
            s,
            opened,
            space,
            true,
        ),
{
    let b = open_body(s, opened, space, false);
    let first = body_bytes(s, false);
    let second = opened_bytes(opened, false);
    let none = Seq::<u8>::empty();
    assert(b =~= none + first + (second + space));
    lemma_cased_all(none, s, second + space, Seq::empty());
    lemma_cased_opened(first, opened, space, Seq::empty());
    assert(open_body(s, opened, space, true) =~= body_bytes(s, true) + (opened_bytes(opened, true)
        + space));
}

proof fn lemma_names_of_wrappers()
    ensures
        is_element_name(encode_utf8("x:xmpmeta"@)),
        is_element_name(encode_utf8("rdf:RDF"@)),
        encode_utf8("</rdf:RDF>"@) == end_bytes(encode_utf8("rdf:RDF"@), Seq::empty()),
        encode_utf8("</x:xmpmeta>"@) == end_bytes(encode_utf8("x:xmpmeta"@), Seq::empty()),
{
    mending::lemma_wrapper_names();
    reveal_strlit("x:xmpmeta");
    reveal_strlit("rdf:RDF");
    text::lemma_ascii_bytes("x:xmpmeta"@);
    text::lemma_ascii_bytes("rdf:RDF"@);
    assert("x:xmpmeta"@.len() == 9 && "rdf:RDF"@.len() == 7);
    let x = encode_utf8("x:xmpmeta"@);
    let r = encode_utf8("rdf:RDF"@);
    assert(x[0] == 'x' as u8 && r[0] == 'r' as u8);
    assert(end_bytes(r, Seq::empty()) =~= mending::closing_tag(r));
    assert(end_bytes(x, Seq::empty()) =~= mending::closing_tag(x));
}

/// The wrappers that a body of properly nested parts leaves open are closed, the inner one first,
/// behind everything but the white space at the end of the body. Where none is left open there is
/// nothing to close.
pub proof fn law_open_wrappers_are_closed(s: Seq<Markup>, opened: Seq<Opened>, space: Seq<u8>)
    requires
        are_nested(s),
        are_opened(opened),
        are_blank(space),
        ({
            let body = body_bytes(s, true) + opened_bytes(opened, true);
            body.len() > 0 && !is_blank(body.last())
        }),
    ensures
        ({
            let b = open_body(s, opened, space, true);
            let closed = body_bytes(s, true) + opened_bytes(opened, true) + added(
                opened,
                "rdf:RDF"@,
            ) + added(opened, "x:xmpmeta"@) + space;
            repair::wrappers_closed(b) == if closed == b {
                None
            } else {
                Some(closed)
            }
        }),
{
    let b = open_body(s, opened, space, true);
    let body = body_bytes(s, true) + opened_bytes(opened, true);
    let x = encode_utf8("x:xmpmeta"@);
    let r = encode_utf8("rdf:RDF"@);
    lemma_names_of_wrappers();
    lemma_body_balance(s, opened, space, x);
    lemma_body_balance(s, opened, space, r);
    assert forall|i: int| body.len() <= i < b.len() implies is_blank(#[trigger] b[i]) by {
        assert(b[i] == space[i - body.len()]);
    }
    assert(b[body.len() - 1] == body.last());
    lemma_trimmed_is(b, b.len() as int, body.len() as int);
    assert(b.subrange(0, body.len() as int) =~= body);
    assert(b.subrange(body.len() as int, b.len() as int) =~= space);
    let none = Seq::<u8>::empty();
    let first = added(opened, "rdf:RDF"@);
    let second = added(opened, "x:xmpmeta"@);
    let closed = body + first + second + space;
    if first.len() == 0 && second.len() == 0 {
        assert(first =~= none && second =~= none);
        assert(closed =~= b);
    } else {
        assert(closed.len() > b.len());
    }
}

/// The whole repair of a body of properly nested parts, elements that are left open and white space:
/// each closing name becomes that of the element that it closes, and the wrappers that are left open
/// are closed. Where this changes nothing there is nothing to repair.
pub proof fn law_nested_bodies_are_repaired(s: Seq<Markup>, opened: Seq<Opened>, space: Seq<u8>)
    requires
        are_nested(s),
        are_opened(opened),
        are_blank(space),
        ({
            let body = body_bytes(s, true) + opened_bytes(opened, true);
            body.len() > 0 && !is_blank(body.last())
        }),
    ensures
        ({
            let b = open_body(s, opened, space, false);
            let repaired = body_bytes(s, true) + opened_bytes(opened, true) + added(
                opened,
                "rdf:RDF"@,
            ) + added(opened, "x:xmpmeta"@) + space;
            repair::body_repaired(b) == if repaired == b {
                None
            } else {
                Some(repaired)
            }
        }),
{
    let b = open_body(s, opened, space, false);
    lemma_cased_body(s, opened, space);
    law_open_wrappers_are_closed(s, opened, space);
    lemma_same_lengths(s);
    lemma_opened_lengths(opened);
}

proof fn lemma_opened_lengths(s: Seq<Opened>)
    requires
        are_opened(s),
    ensures
        opened_bytes(s, true).len() == opened_bytes(s, false).len(),
    decreases s.len(),
{
    if s.len() > 0 {
        assert(are_nested(s[0].content));
        lemma_same_lengths(s[0].content);
        let rest = s.drop_first();
        assert forall|i: int| 0 <= i < rest.len() implies is_tag((#[trigger] rest[i]).tag)
            && are_nested(rest[i].content) by {
            assert(rest[i] == s[i + 1]);
        }
        lemma_opened_lengths(rest);
    }
}

} // verus!
