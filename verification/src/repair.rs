//! Encoding-aware repair of XMP packet envelopes and recoverable XML spelling defects.

use vstd::prelude::*;
use vstd::slice::*;
use vstd::string::*;
use vstd::utf8::*;

use crate::error;
use crate::error::{ErrorView, XmpError};
use crate::mending;
use crate::packet;
use crate::packet::XmpPacket;
use crate::text;
use crate::text::{
    append_all, append_range, copy_all, copy_range, has_at, same_ignoring_case, scan_to,
    trimmed_end, ByteClass,
};

verus! {

/// The fixed packet identifier.
pub const CANONICAL_PACKET_ID: &'static str = "W5M0MpCehiHzreSzNTczkc9d";

/// The canonical `begin` value, U+FEFF.
pub const CANONICAL_BEGIN: &'static str = "\u{FEFF}";

// ---------------------------------------------------------------------------------------------
// Missing closing tags of the wrappers
// ---------------------------------------------------------------------------------------------

/// Whether the tag that ends with the `>` at `tag_end` closes itself: its last byte before the `>`
/// that is no white space is a `/`.
pub open spec fn self_closing(b: Seq<u8>, tag_end: int) -> bool {
    let end = text::space_trimmed_end(b, tag_end);
    end > 0 && b[end - 1] == 0x2F
}

/// Whether the `<` at `open` begins a closing tag.
pub open spec fn is_close(b: Seq<u8>, open: int) -> bool {
    open + 1 < b.len() && b[open + 1] == 0x2F
}

/// Where the name after the `<` at `open` begins.
pub open spec fn name_start(b: Seq<u8>, open: int) -> int {
    if is_close(b, open) {
        open + 2
    } else {
        open + 1
    }
}

/// The number of opening tags minus the number of closing tags of the named element from `cursor`
/// on. Tags that close themselves count as neither.
pub open spec fn balance_from(b: Seq<u8>, name: Seq<u8>, cursor: int) -> int
    decreases b.len() - cursor,
{
    let open = text::scan(b, cursor, ByteClass::Exactly(0x3C));
    if cursor < 0 || cursor >= b.len() || open >= b.len() {
        0
    } else {
        proof {
            lemma_tag_bounds(b, cursor, name.len());
        }
        let start = name_start(b, open);
        let end = start + name.len();
        let tag_end = text::scan(b, end, ByteClass::Exactly(0x3E));
        if !text::occurs_at(b, name, start) || end >= b.len() || !text::in_class(
            ByteClass::TagNameEnd,
            b[end],
        ) {
            balance_from(b, name, start)
        } else if tag_end >= b.len() {
            0
        } else {
            let change = if is_close(b, open) {
                -1
            } else if self_closing(b, tag_end) {
                0int
            } else {
                1
            };
            change + balance_from(b, name, tag_end + 1)
        }
    }
}

/// The parts of a tag lie one after the other.
pub proof fn lemma_tag_bounds(b: Seq<u8>, cursor: int, width: nat)
    requires
        0 <= cursor <= b.len(),
    ensures
        ({
            let open = text::scan(b, cursor, ByteClass::Exactly(0x3C));
            let end = name_start(b, open) + width;
            let tag_end = text::scan(b, end, ByteClass::Exactly(0x3E));
            &&& cursor <= open <= b.len()
            &&& open < b.len() ==> cursor < name_start(b, open) <= b.len()
            &&& end <= b.len() ==> end <= tag_end <= b.len()
        }),
{
    text::lemma_scan(b, cursor, ByteClass::Exactly(0x3C));
    let end = name_start(b, text::scan(b, cursor, ByteClass::Exactly(0x3C))) + width;
    if end <= b.len() {
        text::lemma_scan(b, end, ByteClass::Exactly(0x3E));
    }
}

/// Whether the tag that ends with the `>` at `tag_end` closes itself.
pub(crate) fn closes_itself(b: &[u8], tag_end: usize) -> (r: bool)
    requires
        tag_end <= b@.len(),
    ensures
        r == self_closing(b@, tag_end as int),
{
    let end: usize = trimmed_end(b, tag_end);
    end > 0 && b[end - 1] == 0x2F
}

/// The number of opening tags minus the number of closing tags of the named element.
pub(crate) fn element_balance(body: &[u8], name: &[u8]) -> (r: i128)
    ensures
        r == balance_from(body@, name@, 0),
{
    let length: usize = body.len();
    let mut balance: i128 = 0;
    let mut cursor: usize = 0;
    while cursor < length
        invariant
            length == body@.len(),
            cursor <= length,
            -cursor <= balance <= cursor,
            balance_from(body@, name@, 0) == balance + balance_from(body@, name@, cursor as int),
        decreases length - cursor,
    {
        let open: usize = scan_to(body, cursor, ByteClass::Exactly(0x3C));
        if open >= length {
            return balance;
        }
        proof {
            lemma_tag_bounds(body@, cursor as int, name@.len());
        }
        let is_close = length - open > 1 && body[open + 1] == 0x2F;
        let start: usize = if is_close {
            open + 2
        } else {
            open + 1
        };
        if !has_at(body, name, start) || length - start <= name.len() {
            cursor = start;
            continue;
        }
        let end: usize = start + name.len();
        if scan_to(body, end, ByteClass::TagNameEnd) != end {
            cursor = start;
            continue;
        }
        let tag_end: usize = scan_to(body, end, ByteClass::Exactly(0x3E));
        if tag_end >= length {
            return balance;
        }
        if is_close {
            balance = balance - 1;
        } else if !closes_itself(body, tag_end) {
            balance = balance + 1;
        }
        cursor = tag_end + 1;
    }
    balance
}

/// The body with closing tags for the wrappers that are opened more often than closed, inserted
/// before its trailing white space. `None` when both are balanced.
pub open spec fn wrappers_closed(b: Seq<u8>) -> Option<Seq<u8>> {
    let xmpmeta = balance_from(b, encode_utf8("x:xmpmeta"@), 0);
    let rdf = balance_from(b, encode_utf8("rdf:RDF"@), 0);
    let insertion = text::space_trimmed_end(b, b.len() as int);
    let rdf_close = if rdf > 0 {
        encode_utf8("</rdf:RDF>"@)
    } else {
        Seq::empty()
    };
    let xmpmeta_close = if xmpmeta > 0 {
        encode_utf8("</x:xmpmeta>"@)
    } else {
        Seq::empty()
    };
    if xmpmeta <= 0 && rdf <= 0 {
        None
    } else {
        Some(
            b.subrange(0, insertion) + rdf_close + xmpmeta_close + b.subrange(
                insertion,
                b.len() as int,
            ),
        )
    }
}

/// The body with closing tags for the wrappers that lack them.
fn close_unclosed_wrappers(body: &[u8]) -> (r: Option<Vec<u8>>)
    ensures
        error::option_view(r) == wrappers_closed(body@),
{
    let xmpmeta = element_balance(body, "x:xmpmeta".as_bytes());
    let rdf = element_balance(body, "rdf:RDF".as_bytes());
    if xmpmeta <= 0 && rdf <= 0 {
        return None;
    }
    let insertion: usize = trimmed_end(body, body.len());
    let mut output = copy_range(body, 0, insertion);
    if rdf > 0 {
        append_all(&mut output, "</rdf:RDF>".as_bytes());
    }
    if xmpmeta > 0 {
        append_all(&mut output, "</x:xmpmeta>".as_bytes());
    }
    append_range(&mut output, body, insertion, body.len());
    proof {
        let head = body@.subrange(0, insertion as int);
        assert(head + Seq::<u8>::empty() =~= head);
        assert(output@ =~= wrappers_closed(body@)->Some_0);
    }
    Some(output)
}

/// Closing the wrappers leaves text.
pub proof fn lemma_wrappers_closed_is_text(b: Seq<u8>)
    requires
        valid_utf8(b),
    ensures
        wrappers_closed(b) matches Some(closed) ==> valid_utf8(closed),
{
    let insertion = text::space_trimmed_end(b, b.len() as int);
    text::lemma_space_trimmed_end(b, b.len() as int);
    if insertion < b.len() {
        assert(text::is_space_byte(b[insertion]));
        text::lemma_ascii_boundaries(b, insertion);
    } else {
        is_char_boundary_start_end_of_seq(b);
    }
    valid_utf8_split(b, insertion);
    encode_utf8_valid_utf8("</rdf:RDF>"@);
    encode_utf8_valid_utf8("</x:xmpmeta>"@);
    let head = b.subrange(0, insertion);
    let tail = b.subrange(insertion, b.len() as int);
    let rdf_close = encode_utf8("</rdf:RDF>"@);
    let xmpmeta_close = encode_utf8("</x:xmpmeta>"@);
    let empty = Seq::<u8>::empty();
    valid_utf8_concat(head, rdf_close);
    valid_utf8_concat(head, xmpmeta_close);
    valid_utf8_concat(head + rdf_close, xmpmeta_close);
    valid_utf8_concat(head + rdf_close, tail);
    valid_utf8_concat(head + xmpmeta_close, tail);
    valid_utf8_concat(head + rdf_close + xmpmeta_close, tail);
    assert(head + empty =~= head);
    assert(head + rdf_close + empty =~= head + rdf_close);
}

// ---------------------------------------------------------------------------------------------
// Closing tags whose name differs from the opening one by case
// ---------------------------------------------------------------------------------------------

/// What a tag is to the nesting of elements.
pub enum TagKind {
    /// No further tag can be read.
    Last,
    /// An instruction, a declaration or a comment, up to the index.
    Skipped(int),
    /// An opening tag with the name between two indices; it ends before the third.
    Open(int, int, int),
    /// A tag that closes itself; it ends before the index.
    Empty(int),
    /// A closing tag with the name between two indices; it ends before the third.
    Close(int, int, int),
}

/// The first tag at or after `cursor`.
pub open spec fn tag_from(b: Seq<u8>, cursor: int) -> TagKind {
    let open = text::scan(b, cursor, ByteClass::Exactly(0x3C));
    let start = name_start(b, open);
    let end = text::scan(b, start, ByteClass::TagNameEnd);
    let tag_end = text::scan(b, end, ByteClass::Exactly(0x3E));
    let skipped = text::scan(b, open + 2, ByteClass::Exactly(0x3E));
    if open + 1 >= b.len() {
        TagKind::Last
    } else if b[open + 1] == 0x3F || b[open + 1] == 0x21 {
        TagKind::Skipped(
            if skipped < b.len() {
                skipped + 1
            } else {
                b.len() as int
            },
        )
    } else if tag_end >= b.len() {
        TagKind::Last
    } else if is_close(b, open) {
        TagKind::Close(start, end, tag_end + 1)
    } else if self_closing(b, tag_end) {
        TagKind::Empty(tag_end + 1)
    } else {
        TagKind::Open(start, end, tag_end + 1)
    }
}

/// The name that a closing tag gets: that of the element it closes where the two differ by case at
/// most, else its own.
pub open spec fn closing_name(open_names: Seq<Seq<u8>>, closed: Seq<u8>) -> Seq<u8> {
    if open_names.len() > 0 && text::equal_ignoring_case(open_names.last(), closed) {
        open_names.last()
    } else {
        closed
    }
}

/// The names of the open elements after a closing tag.
pub open spec fn without_last(open_names: Seq<Seq<u8>>) -> Seq<Seq<u8>> {
    if open_names.len() > 0 {
        open_names.drop_last()
    } else {
        open_names
    }
}

/// The body from `cursor` on with the names of its closing tags in the case of the elements they
/// close, where `open_names` are the names of the elements that are open at `cursor`.
pub open spec fn cased_from(b: Seq<u8>, cursor: int, open_names: Seq<Seq<u8>>) -> Seq<u8>
    decreases b.len() - cursor,
{
    if cursor < 0 || cursor >= b.len() {
        Seq::empty()
    } else {
        proof {
            lemma_tag_from(b, cursor);
        }
        match tag_from(b, cursor) {
            TagKind::Last => b.subrange(cursor, b.len() as int),
            TagKind::Skipped(next) => b.subrange(cursor, next) + cased_from(b, next, open_names),
            TagKind::Empty(next) => b.subrange(cursor, next) + cased_from(b, next, open_names),
            TagKind::Open(start, end, next) => b.subrange(cursor, next) + cased_from(
                b,
                next,
                open_names.push(b.subrange(start, end)),
            ),
            TagKind::Close(start, end, next) => b.subrange(cursor, start) + closing_name(
                open_names,
                b.subrange(start, end),
            ) + b.subrange(end, next) + cased_from(b, next, without_last(open_names)),
        }
    }
}

/// The body with its closing tags in the case of the elements they close; `None` when they are
/// already.
pub open spec fn close_case_repaired(b: Seq<u8>) -> Option<Seq<u8>> {
    let repaired = cased_from(b, 0, Seq::empty());
    if repaired == b {
        None
    } else {
        Some(repaired)
    }
}

/// A tag lies within the body, after the cursor.
pub proof fn lemma_tag_from(b: Seq<u8>, cursor: int)
    requires
        0 <= cursor <= b.len(),
    ensures
        match tag_from(b, cursor) {
            TagKind::Last => true,
            TagKind::Skipped(next) => cursor < next <= b.len(),
            TagKind::Empty(next) => cursor < next <= b.len(),
            TagKind::Open(start, end, next) => cursor < start <= end < next <= b.len(),
            TagKind::Close(start, end, next) => cursor < start <= end < next <= b.len(),
        },
{
    lemma_tag_bounds(b, cursor, 0);
    let open = text::scan(b, cursor, ByteClass::Exactly(0x3C));
    if open + 1 < b.len() {
        let start = name_start(b, open);
        text::lemma_scan(b, start, ByteClass::TagNameEnd);
        let end = text::scan(b, start, ByteClass::TagNameEnd);
        text::lemma_scan(b, end, ByteClass::Exactly(0x3E));
        text::lemma_scan(b, open + 2, ByteClass::Exactly(0x3E));
    }
}

/// What [`read_tag`] found. See [`TagKind`].
enum FoundTag {
    Last,
    Skipped(usize),
    Open(usize, usize, usize),
    Empty(usize),
    Close(usize, usize, usize),
}

/// The first tag at or after `cursor`.
fn read_tag(b: &[u8], cursor: usize) -> (r: FoundTag)
    requires
        cursor <= b@.len(),
    ensures
        tag_from(b@, cursor as int) == (match r {
            FoundTag::Last => TagKind::Last,
            FoundTag::Skipped(next) => TagKind::Skipped(next as int),
            FoundTag::Empty(next) => TagKind::Empty(next as int),
            FoundTag::Open(start, end, next) => TagKind::Open(
                start as int,
                end as int,
                next as int,
            ),
            FoundTag::Close(start, end, next) => TagKind::Close(
                start as int,
                end as int,
                next as int,
            ),
        }),
{
    let length: usize = b.len();
    let open: usize = scan_to(b, cursor, ByteClass::Exactly(0x3C));
    if open >= length || length - open <= 1 {
        return FoundTag::Last;
    }
    if b[open + 1] == 0x3F || b[open + 1] == 0x21 {
        let end: usize = scan_to(b, open + 2, ByteClass::Exactly(0x3E));
        return FoundTag::Skipped(
            if end < length {
                end + 1
            } else {
                length
            },
        );
    }
    let is_close = b[open + 1] == 0x2F;
    let start: usize = if is_close {
        open + 2
    } else {
        open + 1
    };
    let end: usize = scan_to(b, start, ByteClass::TagNameEnd);
    let tag_end: usize = scan_to(b, end, ByteClass::Exactly(0x3E));
    if tag_end >= length {
        FoundTag::Last
    } else if is_close {
        FoundTag::Close(start, end, tag_end + 1)
    } else if closes_itself(b, tag_end) {
        FoundTag::Empty(tag_end + 1)
    } else {
        FoundTag::Open(start, end, tag_end + 1)
    }
}

/// The names between pairs of indices.
spec fn names_at(b: Seq<u8>, places: Seq<(usize, usize)>) -> Seq<Seq<u8>> {
    places.map_values(|place: (usize, usize)| b.subrange(place.0 as int, place.1 as int))
}

/// The body with its closing tags in the case of the elements they close. Nothing but the case of
/// letters in the names of closing tags changes, and there is nothing left to repair.
pub fn repair_close_tag_case(body: &[u8]) -> (r: Option<Vec<u8>>)
    ensures
        error::option_view(r) == close_case_repaired(body@),
        r matches Some(repaired) ==> {
            &&& repaired@.len() == body@.len()
            &&& repaired@ != body@
            &&& text::equal_ignoring_case(body@, repaired@)
            &&& forall|i: int|
                0 <= i < body@.len() && #[trigger] repaired@[i] != body@[i]
                    ==> mending::in_closing_name(body@, 0, i)
            &&& close_case_repaired(repaired@) is None
        },
{
    proof {
        mending::law_case_repair_changes_closing_names(body@);
        mending::law_case_repair_leaves_nothing(body@);
    }
    let ghost b = body@;
    let mut output: Vec<u8> = Vec::new();
    let mut stack: Vec<(usize, usize)> = Vec::new();
    let mut cursor: usize = 0;
    let mut changed = false;
    assert(names_at(b, stack@) =~= Seq::<Seq<u8>>::empty());
    assert(output@ =~= b.subrange(0, 0));
    assert(output@ + cased_from(b, 0, Seq::empty()) =~= cased_from(b, 0, Seq::empty()));
    while cursor < body.len()
        invariant
            b == body@,
            cursor <= b.len(),
            output@.len() == cursor,
            changed <==> output@ != b.subrange(0, cursor as int),
            forall|i: int| 0 <= i < stack@.len() ==> (#[trigger] stack@[i]).0 <= stack@[i].1
                <= b.len(),
            cased_from(b, 0, Seq::empty()) == output@ + cased_from(
                b,
                cursor as int,
                names_at(b, stack@),
            ),
        decreases b.len() - cursor,
    {
        proof {
            lemma_tag_from(b, cursor as int);
        }
        let ghost before = output@;
        let ghost names = names_at(b, stack@);
        let start: usize;
        let end: usize;
        let next: usize;
        let mut fixed: Option<(usize, usize)> = None;
        match read_tag(body, cursor) {
            FoundTag::Last => {
                start = body.len();
                end = body.len();
                next = body.len();
                assert(b.subrange(cursor as int, next as int) + Seq::<u8>::empty() =~= b.subrange(
                    cursor as int,
                    next as int,
                ));
                assert(cased_from(b, next as int, names) =~= Seq::<u8>::empty());
            },
            FoundTag::Skipped(n) | FoundTag::Empty(n) => {
                start = n;
                end = n;
                next = n;
            },
            FoundTag::Open(s, e, n) => {
                start = n;
                end = n;
                next = n;
                stack.push((s, e));
                assert(names_at(b, stack@) =~= names.push(b.subrange(s as int, e as int)));
            },
            FoundTag::Close(s, e, n) => {
                start = s;
                end = e;
                next = n;
                match stack.pop() {
                    Some(place) => {
                        assert(names_at(b, stack@) =~= names.drop_last());
                        assert(names.last() == b.subrange(place.0 as int, place.1 as int));
                        let opened = slice_subrange(body, place.0, place.1);
                        let closed = slice_subrange(body, s, e);
                        if same_ignoring_case(opened, closed) {
                            fixed = Some(place);
                        }
                    },
                    None => {},
                }
            },
        }
        let ghost name = match fixed {
            Some(place) => b.subrange(place.0 as int, place.1 as int),
            None => b.subrange(start as int, end as int),
        };
        append_range(&mut output, body, cursor, start);
        match fixed {
            Some((s, e)) => {
                if !text::same_bytes(slice_subrange(body, s, e), slice_subrange(body, start, end)) {
                    changed = true;
                }
                append_range(&mut output, body, s, e);
            },
            None => {
                append_range(&mut output, body, start, end);
            },
        }
        append_range(&mut output, body, end, next);
        proof {
            let piece = b.subrange(cursor as int, start as int) + name + b.subrange(
                end as int,
                next as int,
            );
            let rest = cased_from(b, next as int, names_at(b, stack@));
            assert(output@ =~= before + piece);
            assert(name.len() == end - start);
            if name == b.subrange(start as int, end as int) {
                assert(piece =~= b.subrange(cursor as int, next as int));
            }
            assert(cased_from(b, cursor as int, names) =~= piece + rest);
            assert(output@ + rest =~= before + (piece + rest));
            let whole = b.subrange(0, next as int);
            assert(whole.subrange(0, cursor as int) =~= b.subrange(0, cursor as int));
            assert(output@.subrange(0, cursor as int) =~= before);
            assert(whole.subrange(start as int, end as int) =~= b.subrange(
                start as int,
                end as int,
            ));
            assert(output@.subrange(start as int, end as int) =~= name);
            if before == b.subrange(0, cursor as int) && name == b.subrange(
                start as int,
                end as int,
            ) {
                assert(output@ =~= whole);
            }
        }
        cursor = next;
    }
    assert(output@ + Seq::<u8>::empty() =~= output@);
    assert(b.subrange(0, b.len() as int) =~= b);
    if changed {
        Some(output)
    } else {
        None
    }
}

/// Whether two bytes differ by case at most.
pub open spec fn similar(x: u8, y: u8) -> bool {
    text::lower_byte(x) == text::lower_byte(y)
}

/// Bytes that differ from a text in ASCII letters only are text.
proof fn lemma_similar_is_text(b: Seq<u8>, c: Seq<u8>)
    requires
        valid_utf8(b),
        b.len() == c.len(),
        forall|i: int| 0 <= i < b.len() ==> similar(b[i], c[i]),
    ensures
        valid_utf8(c),
    decreases b.len(),
{
    if b.len() > 0 {
        assert(similar(b[0], c[0]));
        let width = length_of_first_scalar(b);
        assert(width >= 2 ==> similar(b[1], c[1]));
        assert(width >= 3 ==> similar(b[2], c[2]));
        assert(width >= 4 ==> similar(b[3], c[3]));
        assert(valid_first_scalar(c));
        assert(length_of_first_scalar(c) == width);
        let rest_b = pop_first_scalar(b);
        let rest_c = pop_first_scalar(c);
        assert forall|i: int| 0 <= i < rest_b.len() implies similar(rest_b[i], rest_c[i]) by {
            assert(rest_b[i] == b[i + width]);
            assert(rest_c[i] == c[i + width]);
            assert(similar(b[i + width], c[i + width]));
        }
        lemma_similar_is_text(rest_b, rest_c);
    }
}

/// Changing the case of closing tags changes the case of letters only.
pub proof fn lemma_cased(b: Seq<u8>, cursor: int, open_names: Seq<Seq<u8>>)
    requires
        0 <= cursor <= b.len(),
    ensures
        ({
            let cased = cased_from(b, cursor, open_names);
            &&& cased.len() == b.len() - cursor
            &&& forall|i: int| 0 <= i < cased.len() ==> similar(b[cursor + i], #[trigger] cased[i])
        }),
    decreases b.len() - cursor,
{
    if cursor < b.len() {
        lemma_tag_from(b, cursor);
        match tag_from(b, cursor) {
            TagKind::Last => {},
            TagKind::Skipped(next) | TagKind::Empty(next) => {
                lemma_cased(b, next, open_names);
                lemma_cased_step(b, cursor, next, next, next, open_names, b.subrange(next, next));
            },
            TagKind::Open(start, end, next) => {
                let names = open_names.push(b.subrange(start, end));
                lemma_cased(b, next, names);
                lemma_cased_step(b, cursor, next, next, next, names, b.subrange(next, next));
            },
            TagKind::Close(start, end, next) => {
                let names = without_last(open_names);
                let name = closing_name(open_names, b.subrange(start, end));
                lemma_cased(b, next, names);
                lemma_cased_step(b, cursor, start, end, next, names, name);
            },
        }
    }
}

proof fn lemma_cased_step(
    b: Seq<u8>,
    cursor: int,
    start: int,
    end: int,
    next: int,
    names: Seq<Seq<u8>>,
    name: Seq<u8>,
)
    requires
        0 <= cursor <= start <= end <= next <= b.len(),
        text::equal_ignoring_case(name, b.subrange(start, end)),
        ({
            let cased = cased_from(b, next, names);
            &&& cased.len() == b.len() - next
            &&& forall|i: int| 0 <= i < cased.len() ==> similar(b[next + i], #[trigger] cased[i])
        }),
    ensures
        ({
            let cased = b.subrange(cursor, start) + name + b.subrange(end, next) + cased_from(
                b,
                next,
                names,
            );
            &&& cased.len() == b.len() - cursor
            &&& forall|i: int| 0 <= i < cased.len() ==> similar(b[cursor + i], #[trigger] cased[i])
        }),
        start == next ==> b.subrange(cursor, start) + name + b.subrange(end, next) =~= b.subrange(
            cursor,
            next,
        ),
{
    let rest = cased_from(b, next, names);
    let cased = b.subrange(cursor, start) + name + b.subrange(end, next) + rest;
    assert forall|i: int| 0 <= i < cased.len() implies similar(b[cursor + i], #[trigger] cased[i]) by {
        let at = cursor + i;
        if at < start {
            assert(cased[i] == b[at]);
        } else if at < end {
            assert(cased[i] == name[at - start]);
            assert(text::lower_byte(name[at - start]) == text::lower_byte(
                b.subrange(start, end)[at - start],
            ));
        } else if at < next {
            assert(cased[i] == b[at]);
        } else {
            assert(cased[i] == rest[at - next]);
            assert(similar(b[next + (at - next)], rest[at - next]));
        }
    }
}

/// Changing the case of closing tags leaves text.
proof fn lemma_close_case_is_text(b: Seq<u8>)
    requires
        valid_utf8(b),
    ensures
        close_case_repaired(b) matches Some(repaired) ==> valid_utf8(repaired),
{
    lemma_cased(b, 0, Seq::empty());
    let cased = cased_from(b, 0, Seq::empty());
    assert forall|i: int| 0 <= i < b.len() implies similar(b[i], cased[i]) by {
        assert(similar(b[0 + i], cased[i]));
    }
    lemma_similar_is_text(b, cased);
}

// ---------------------------------------------------------------------------------------------
// The repairs
// ---------------------------------------------------------------------------------------------

/// The body with its closing tags in the right case and its wrappers closed; `None` when neither
/// repair applies. The case comes first, so that a wrapper closed in the wrong case is not closed
/// again.
pub open spec fn body_repaired(b: Seq<u8>) -> Option<Seq<u8>> {
    let cased = close_case_repaired(b);
    let working = match cased {
        Some(c) => c,
        None => b,
    };
    match wrappers_closed(working) {
        Some(repaired) => Some(repaired),
        None => cased,
    }
}

/// The body with its closing tags in the right case and its wrappers closed.
fn repair_body(body: &[u8]) -> (r: Option<Vec<u8>>)
    ensures
        error::option_view(r) == body_repaired(body@),
{
    match repair_close_tag_case(body) {
        Some(cased) => match close_unclosed_wrappers(cased.as_slice()) {
            Some(repaired) => Some(repaired),
            None => Some(cased),
        },
        None => close_unclosed_wrappers(body),
    }
}

/// A repaired body is text.
pub proof fn lemma_body_repaired_is_text(b: Seq<u8>)
    requires
        valid_utf8(b),
    ensures
        body_repaired(b) matches Some(repaired) ==> valid_utf8(repaired),
{
    lemma_wrappers_closed_is_text(b);
    lemma_close_case_is_text(b);
    if let Some(cased) = close_case_repaired(b) {
        lemma_wrappers_closed_is_text(cased);
    }
}

/// A repair of the RDF/XML body.
#[derive(Clone, Copy)]
pub enum BodyRepair {
    /// Closing the wrappers alone.
    Wrappers,
    /// Setting the case of closing tags and closing the wrappers.
    Serialisation,
}

/// What a repair makes of a body; `None` when it finds nothing to repair.
pub open spec fn repaired_by(repair: BodyRepair, b: Seq<u8>) -> Option<Seq<u8>> {
    match repair {
        BodyRepair::Wrappers => wrappers_closed(b),
        BodyRepair::Serialisation => body_repaired(b),
    }
}

/// The packet with its body repaired: everything but what lies between the two instructions is
/// kept, and so is the encoding.
pub open spec fn body_rewritten(bytes: Seq<u8>, repair: BodyRepair) -> Result<
    Option<Seq<u8>>,
    ErrorView,
> {
    match packet::scanned(bytes) {
        Err(e) => Err(e),
        Ok(d) => match (d.envelope.header, d.envelope.trailer) {
            (Some(header), Some(trailer)) => match repaired_by(
                repair,
                d.bytes().subrange(header.end as int, trailer.start as int),
            ) {
                Some(repaired) => Ok(
                    Some(d.respliced(header.end as int, trailer.start as int, repaired)),
                ),
                None => Ok(None),
            },
            _ => Ok(None),
        },
    }
}

/// The packet with its body repaired.
fn rewrite_body(bytes: &[u8], repair: BodyRepair) -> (r: Result<Option<Vec<u8>>, XmpError>)
    ensures
        match r {
            Ok(rewritten) => body_rewritten(bytes@, repair) == Ok::<Option<Seq<u8>>, ErrorView>(
                error::option_view(rewritten),
            ),
            Err(e) => body_rewritten(bytes@, repair) == Err::<Option<Seq<u8>>, ErrorView>(e@),
        },
{
    let decoded = match XmpPacket::scan_with_source(bytes) {
        Ok(decoded) => decoded,
        Err(e) => {
            return Err(e);
        },
    };
    let (start, end): (usize, usize) = match (decoded.envelope.header, decoded.envelope.trailer) {
        (Some(header), Some(trailer)) => (header.end, trailer.start),
        _ => {
            return Ok(None);
        },
    };
    let body = slice_subrange(decoded.decoded.as_str().as_bytes(), start, end);
    proof {
        text::lemma_text_bytes(decoded.decoded@);
        text::lemma_boundary_within(decoded@.bytes(), start as int, start as int, end as int);
        lemma_wrappers_closed_is_text(body@);
        lemma_body_repaired_is_text(body@);
    }
    let repaired = match repair {
        BodyRepair::Wrappers => close_unclosed_wrappers(body),
        BodyRepair::Serialisation => repair_body(body),
    };
    match repaired {
        Some(repaired) => Ok(Some(decoded.resplice(start, end, repaired.as_slice()))),
        None => Ok(None),
    }
}

/// Inserts missing `rdf:RDF` and `x:xmpmeta` close tags in an otherwise retained packet.
///
/// The source encoding and packet instructions are preserved. `None` means the wrappers were
/// already balanced or no safe insertion was identified.
///
/// # Errors
///
/// Returns [`XmpError::Encoding`] when the packet cannot be decoded.
pub fn close_xmp_wrappers(bytes: &[u8]) -> (r: Result<Option<Vec<u8>>, XmpError>)
    ensures
        match r {
            Ok(rewritten) => body_rewritten(bytes@, BodyRepair::Wrappers) == Ok::<
                Option<Seq<u8>>,
                ErrorView,
            >(error::option_view(rewritten)),
            Err(e) => body_rewritten(bytes@, BodyRepair::Wrappers) == Err::<
                Option<Seq<u8>>,
                ErrorView,
            >(e@),
        },
{
    rewrite_body(bytes, BodyRepair::Wrappers)
}

/// Repairs missing outer closes and case-only close-tag mismatches in the RDF/XML body.
///
/// The source encoding and packet instructions are preserved. `None` means no supported defect
/// was present.
///
/// # Errors
///
/// Returns [`XmpError::Encoding`] when the packet cannot be decoded.
pub fn repair_xmp_serialisation(bytes: &[u8]) -> (r: Result<Option<Vec<u8>>, XmpError>)
    ensures
        match r {
            Ok(rewritten) => body_rewritten(bytes@, BodyRepair::Serialisation) == Ok::<
                Option<Seq<u8>>,
                ErrorView,
            >(error::option_view(rewritten)),
            Err(e) => body_rewritten(bytes@, BodyRepair::Serialisation) == Err::<
                Option<Seq<u8>>,
                ErrorView,
            >(e@),
        },
{
    rewrite_body(bytes, BodyRepair::Serialisation)
}

/// The canonical opening instruction.
pub open spec fn canonical_header() -> Seq<char> {
    "<?xpacket begin='"@ + CANONICAL_BEGIN@ + "' id='"@ + CANONICAL_PACKET_ID@ + "'?>"@
}

/// The canonical closing instruction.
pub open spec fn canonical_trailer(writable: bool) -> Seq<char> {
    if writable {
        "<?xpacket end='w'?>"@
    } else {
        "<?xpacket end='r'?>"@
    }
}

/// The canonical UTF-8 packet around a body.
pub open spec fn canonical_packet(body: Seq<u8>, writable: bool) -> Seq<u8> {
    encode_utf8(canonical_header()) + body + encode_utf8(canonical_trailer(writable))
}

/// The canonical form of a packet: canonical instructions around its repaired body.
pub open spec fn canonicalised(bytes: Seq<u8>) -> Result<Seq<u8>, ErrorView> {
    match packet::scanned(bytes) {
        Err(e) => Err(e),
        Ok(d) => match (d.envelope.header, d.envelope.trailer) {
            (None, _) => Err(ErrorView::Encoding("XMP packet header is missing"@)),
            (_, None) => Err(ErrorView::Encoding("XMP packet trailer is missing"@)),
            (Some(header), Some(trailer)) => {
                let body = d.bytes().subrange(header.end as int, trailer.start as int);
                Ok(
                    canonical_packet(
                        match body_repaired(body) {
                            Some(repaired) => repaired,
                            None => body,
                        },
                        d.packet.writable,
                    ),
                )
            },
        },
    }
}

/// Canonicalises the packet instructions and character encoding, while retaining the body XML.
///
/// UTF-8, UTF-16, and UTF-32 input is accepted. Recoverable missing outer close tags and
/// case-only close-tag mismatches are repaired before the canonical UTF-8 packet is emitted.
///
/// # Errors
///
/// Returns [`XmpError::Encoding`] when either packet instruction is absent or the input encoding
/// is malformed.
pub fn canonicalise_xmp_packet(bytes: &[u8]) -> (r: Result<Vec<u8>, XmpError>)
    ensures
        error::outcome(r) == canonicalised(bytes@),
{
    let decoded = match XmpPacket::scan_with_source(bytes) {
        Ok(decoded) => decoded,
        Err(e) => {
            return Err(e);
        },
    };
    let header = match decoded.envelope.header {
        Some(header) => header,
        None => {
            return Err(XmpError::Encoding("XMP packet header is missing"));
        },
    };
    let trailer = match decoded.envelope.trailer {
        Some(trailer) => trailer,
        None => {
            return Err(XmpError::Encoding("XMP packet trailer is missing"));
        },
    };
    let body = slice_subrange(decoded.decoded.as_str().as_bytes(), header.end, trailer.start);
    let body = match repair_body(body) {
        Some(repaired) => repaired,
        None => copy_all(body),
    };
    let opening = text::join5(
        "<?xpacket begin='",
        CANONICAL_BEGIN,
        "' id='",
        CANONICAL_PACKET_ID,
        "'?>",
    );
    let closing = if decoded.packet.writable {
        "<?xpacket end='w'?>"
    } else {
        "<?xpacket end='r'?>"
    };
    let mut output = copy_all(opening.as_str().as_bytes());
    append_all(&mut output, body.as_slice());
    append_all(&mut output, closing.as_bytes());
    Ok(output)
}

/// A canonical packet is UTF-8 text.
pub proof fn law_canonical_packet_is_utf8(bytes: Seq<u8>)
    requires
        packet::scanned(bytes) matches Ok(d) && d.bytes().len() <= usize::MAX,
    ensures
        canonicalised(bytes) matches Ok(out) ==> valid_utf8(out),
{
    packet::law_scanned_spans_slice_the_text(bytes);
    let d = packet::scanned(bytes)->Ok_0;
    if let (Some(header), Some(trailer)) = (d.envelope.header, d.envelope.trailer) {
        let body = d.bytes().subrange(header.end as int, trailer.start as int);
        text::lemma_text_bytes(d.decoded);
        text::lemma_boundary_within(
            d.bytes(),
            header.end as int,
            header.end as int,
            trailer.start as int,
        );
        lemma_body_repaired_is_text(body);
        let kept = match body_repaired(body) {
            Some(repaired) => repaired,
            None => body,
        };
        encode_utf8_valid_utf8(canonical_header());
        encode_utf8_valid_utf8(canonical_trailer(d.packet.writable));
        valid_utf8_concat(encode_utf8(canonical_header()), kept);
        valid_utf8_concat(
            encode_utf8(canonical_header()) + kept,
            encode_utf8(canonical_trailer(d.packet.writable)),
        );
    }
}

} // verus!
