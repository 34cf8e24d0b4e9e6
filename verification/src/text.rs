//! Scanning and conversion of UTF-8 text, at the level of bytes and of characters.

use vstd::prelude::*;
use vstd::string::*;
use vstd::utf8::*;

verus! {

// ---------------------------------------------------------------------------------------------
// Bytes
// ---------------------------------------------------------------------------------------------

/// The five ASCII white-space bytes: tab, line feed, form feed, carriage return and space.
pub open spec fn is_space_byte(b: u8) -> bool {
    b == 0x09 || b == 0x0A || b == 0x0C || b == 0x0D || b == 0x20
}

/// Whether `b` is an ASCII white-space byte.
pub fn is_space(b: u8) -> (r: bool)
    ensures
        r == is_space_byte(b),
{
    b == 0x09 || b == 0x0A || b == 0x0C || b == 0x0D || b == 0x20
}

/// A set of bytes that a scan stops at.
#[derive(Clone, Copy)]
pub enum ByteClass {
    /// One particular byte.
    Exactly(u8),
    /// Every byte that is not ASCII white space.
    NonSpace,
    /// Every ASCII white-space byte.
    Space,
    /// White space and the bytes `=`, `?` and `>`, which end an attribute name.
    AttributeNameEnd,
    /// White space and the bytes `>` and `/`, which end a tag name.
    TagNameEnd,
    /// Space, tab, line feed, carriage return, `>` and `/`, which end a qualified name.
    QualifiedNameEnd,
}

/// Whether a scan for `class` stops at `b`.
pub open spec fn in_class(class: ByteClass, b: u8) -> bool {
    match class {
        ByteClass::Exactly(x) => b == x,
        ByteClass::NonSpace => !is_space_byte(b),
        ByteClass::Space => is_space_byte(b),
        ByteClass::AttributeNameEnd => is_space_byte(b) || b == 0x3D || b == 0x3F || b == 0x3E,
        ByteClass::TagNameEnd => is_space_byte(b) || b == 0x3E || b == 0x2F,
        ByteClass::QualifiedNameEnd => b == 0x20 || b == 0x09 || b == 0x0A || b == 0x0D || b == 0x3E
            || b == 0x2F,
    }
}

/// The first index at or after `from` whose byte is in `class`, or the length when there is none.
pub open spec fn scan(s: Seq<u8>, from: int, class: ByteClass) -> int
    decreases s.len() - from,
{
    if from < 0 || from >= s.len() {
        s.len() as int
    } else if in_class(class, s[from]) {
        from
    } else {
        scan(s, from + 1, class)
    }
}

/// Whether a scan for `class` stops at `b`.
fn matches_class(class: ByteClass, b: u8) -> (r: bool)
    ensures
        r == in_class(class, b),
{
    match class {
        ByteClass::Exactly(x) => b == x,
        ByteClass::NonSpace => !is_space(b),
        ByteClass::Space => is_space(b),
        ByteClass::AttributeNameEnd => is_space(b) || b == 0x3D || b == 0x3F || b == 0x3E,
        ByteClass::TagNameEnd => is_space(b) || b == 0x3E || b == 0x2F,
        ByteClass::QualifiedNameEnd => b == 0x20 || b == 0x09 || b == 0x0A || b == 0x0D || b == 0x3E
            || b == 0x2F,
    }
}

/// The first index at or after `from` whose byte is in `class`, or the length when there is none.
pub fn scan_to(s: &[u8], from: usize, class: ByteClass) -> (r: usize)
    requires
        from <= s@.len(),
    ensures
        r == scan(s@, from as int, class),
        from <= r <= s@.len(),
        r < s@.len() ==> in_class(class, s@[r as int]),
        forall|i: int| from <= i < r ==> !in_class(class, #[trigger] s@[i]),
{
    let mut i: usize = from;
    while i < s.len()
        invariant
            from <= i <= s@.len(),
            scan(s@, from as int, class) == scan(s@, i as int, class),
            forall|j: int| from <= j < i ==> !in_class(class, #[trigger] s@[j]),
        decreases s@.len() - i,
    {
        if matches_class(class, s[i]) {
            return i;
        }
        i = i + 1;
    }
    i
}

/// What a scan finds lies between its start and the end, is in the class, and is the first such.
pub proof fn lemma_scan(s: Seq<u8>, from: int, class: ByteClass)
    requires
        0 <= from <= s.len(),
    ensures
        from <= scan(s, from, class) <= s.len(),
        scan(s, from, class) < s.len() ==> in_class(class, s[scan(s, from, class)]),
        forall|i: int| from <= i < scan(s, from, class) ==> !in_class(class, #[trigger] s[i]),
    decreases s.len() - from,
{
    if from < s.len() && !in_class(class, s[from]) {
        lemma_scan(s, from + 1, class);
    }
}

/// The end of the part of `s[..end]` that is left when its trailing ASCII white space is dropped.
pub open spec fn space_trimmed_end(s: Seq<u8>, end: int) -> int
    decreases end,
{
    if end <= 0 {
        0
    } else if is_space_byte(s[end - 1]) {
        space_trimmed_end(s, end - 1)
    } else {
        end
    }
}

/// The end of the part of `s[..end]` that is left when its trailing ASCII white space is dropped.
pub fn trimmed_end(s: &[u8], end: usize) -> (r: usize)
    requires
        end <= s@.len(),
    ensures
        r == space_trimmed_end(s@, end as int),
        r <= end,
        r > 0 ==> !is_space_byte(s@[r - 1]),
        forall|i: int| r <= i < end ==> is_space_byte(#[trigger] s@[i]),
{
    let mut i: usize = end;
    while i > 0
        invariant
            i <= end <= s@.len(),
            space_trimmed_end(s@, end as int) == space_trimmed_end(s@, i as int),
            forall|j: int| i <= j < end ==> is_space_byte(#[trigger] s@[j]),
        decreases i,
    {
        if !is_space(s[i - 1]) {
            return i;
        }
        i = i - 1;
    }
    i
}

/// What is left after trimming ends in a byte that is no white space, and only white space was
/// dropped.
pub proof fn lemma_space_trimmed_end(s: Seq<u8>, end: int)
    requires
        0 <= end <= s.len(),
    ensures
        0 <= space_trimmed_end(s, end) <= end,
        space_trimmed_end(s, end) > 0 ==> !is_space_byte(s[space_trimmed_end(s, end) - 1]),
        forall|i: int|
            space_trimmed_end(s, end) <= i < end ==> is_space_byte(#[trigger] s[i]),
    decreases end,
{
    if end > 0 && is_space_byte(s[end - 1]) {
        lemma_space_trimmed_end(s, end - 1);
    }
}

/// The number of trailing ASCII white-space bytes in `bytes`.
pub fn trailing_whitespace(bytes: &[u8]) -> (r: usize)
    ensures
        r == bytes@.len() - space_trimmed_end(bytes@, bytes@.len() as int),
        r <= bytes@.len(),
{
    bytes.len() - trimmed_end(bytes, bytes.len())
}

/// Whether `needle` stands in `haystack` at index `at`.
pub open spec fn occurs_at(haystack: Seq<u8>, needle: Seq<u8>, at: int) -> bool {
    &&& 0 <= at
    &&& at + needle.len() <= haystack.len()
    &&& haystack.subrange(at, at + needle.len()) == needle
}

/// The first index at or after `from` at which `needle` occurs in `haystack`.
pub open spec fn find_from(haystack: Seq<u8>, needle: Seq<u8>, from: int) -> Option<int>
    decreases haystack.len() + 1 - from,
{
    if from < 0 || from + needle.len() > haystack.len() {
        None
    } else if occurs_at(haystack, needle, from) {
        Some(from)
    } else {
        find_from(haystack, needle, from + 1)
    }
}

/// The first index at which a non-empty `needle` occurs in `haystack`.
pub open spec fn found(haystack: Seq<u8>, needle: Seq<u8>) -> Option<int> {
    if needle.len() == 0 {
        None
    } else {
        find_from(haystack, needle, 0)
    }
}

/// The index found is one at which the needle occurs, there is none before it, and `None` means
/// that the needle does not occur at all.
pub proof fn lemma_find_from(haystack: Seq<u8>, needle: Seq<u8>, from: int)
    requires
        0 <= from,
    ensures
        match find_from(haystack, needle, from) {
            Some(i) => from <= i && occurs_at(haystack, needle, i) && forall|j: int|
                from <= j < i ==> !#[trigger] occurs_at(haystack, needle, j),
            None => forall|j: int| from <= j ==> !#[trigger] occurs_at(haystack, needle, j),
        },
    decreases haystack.len() + 1 - from,
{
    if from + needle.len() <= haystack.len() && !occurs_at(haystack, needle, from) {
        lemma_find_from(haystack, needle, from + 1);
    }
}

/// Whether `needle` stands in `haystack` at index `at`.
fn stands_at(haystack: &[u8], needle: &[u8], at: usize) -> (r: bool)
    requires
        at + needle@.len() <= haystack@.len(),
    ensures
        r == occurs_at(haystack@, needle@, at as int),
{
    let length: usize = haystack.len();
    let mut i: usize = 0;
    while i < needle.len()
        invariant
            0 <= i <= needle@.len(),
            at + needle@.len() <= haystack@.len() == length,
            forall|j: int| 0 <= j < i ==> haystack@[at + j] == #[trigger] needle@[j],
        decreases needle@.len() - i,
    {
        if haystack[at + i] != needle[i] {
            assert(haystack@.subrange(at as int, at + needle@.len())[i as int] != needle@[i as int]);
            return false;
        }
        i = i + 1;
    }
    assert(haystack@.subrange(at as int, at + needle@.len()) =~= needle@);
    true
}

/// An index as an unbounded integer.
pub open spec fn index_view(index: Option<usize>) -> Option<int> {
    match index {
        Some(i) => Some(i as int),
        None => None,
    }
}

/// The first index at or after `from` at which a non-empty `needle` occurs in `haystack`.
pub fn find_after(haystack: &[u8], needle: &[u8], from: usize) -> (r: Option<usize>)
    requires
        needle@.len() > 0,
        from <= haystack@.len(),
    ensures
        index_view(r) == find_from(haystack@, needle@, from as int),
        r matches Some(i) ==> from <= i && i + needle@.len() <= haystack@.len(),
{
    if needle.len() > haystack.len() - from {
        return None;
    }
    let last: usize = haystack.len() - needle.len();
    let mut i: usize = from;
    while i <= last
        invariant
            from <= i <= last + 1 <= usize::MAX,
            last + needle@.len() == haystack@.len(),
            needle@.len() > 0,
            find_from(haystack@, needle@, from as int) == find_from(haystack@, needle@, i as int),
        decreases last + 1 - i,
    {
        if stands_at(haystack, needle, i) {
            return Some(i);
        }
        i = i + 1;
    }
    None
}

/// The index of the first occurrence of `needle` in `haystack`, if any. An empty needle is never
/// found.
pub fn find(haystack: &[u8], needle: &[u8]) -> (r: Option<usize>)
    ensures
        index_view(r) == found(haystack@, needle@),
        match r {
            Some(i) => needle@.len() > 0 && occurs_at(haystack@, needle@, i as int) && forall|j: int|
                0 <= j < i ==> !#[trigger] occurs_at(haystack@, needle@, j),
            None => needle@.len() == 0 || forall|j: int|
                !#[trigger] occurs_at(haystack@, needle@, j),
        },
{
    if needle.len() == 0 {
        return None;
    }
    proof {
        lemma_find_from(haystack@, needle@, 0);
    }
    find_after(haystack, needle, 0)
}

/// Whether two byte slices hold the same bytes.
pub fn same_bytes(a: &[u8], b: &[u8]) -> (r: bool)
    ensures
        r == (a@ == b@),
{
    if a.len() != b.len() {
        return false;
    }
    let r = stands_at(a, b, 0);
    assert(a@.subrange(0, a@.len() as int) =~= a@);
    r
}

/// Whether `needle` stands in `haystack` at index `at`.
pub fn has_at(haystack: &[u8], needle: &[u8], at: usize) -> (r: bool)
    requires
        at <= haystack@.len(),
    ensures
        r == occurs_at(haystack@, needle@, at as int),
{
    if needle.len() > haystack.len() - at {
        return false;
    }
    stands_at(haystack, needle, at)
}

/// The ASCII lower-case form of a byte.
pub open spec fn lower_byte(b: u8) -> u8 {
    if 0x41 <= b <= 0x5A {
        (b + 0x20) as u8
    } else {
        b
    }
}

/// Whether two byte strings are equal up to the case of their ASCII letters.
pub open spec fn equal_ignoring_case(a: Seq<u8>, b: Seq<u8>) -> bool {
    a.len() == b.len() && forall|i: int| 0 <= i < a.len() ==> lower_byte(a[i]) == lower_byte(b[i])
}

/// The ASCII lower-case form of a byte.
fn to_lower(b: u8) -> (r: u8)
    ensures
        r == lower_byte(b),
{
    if 0x41 <= b && b <= 0x5A {
        b + 0x20
    } else {
        b
    }
}

/// Whether two byte slices are equal up to the case of their ASCII letters.
pub fn same_ignoring_case(a: &[u8], b: &[u8]) -> (r: bool)
    ensures
        r == equal_ignoring_case(a@, b@),
{
    if a.len() != b.len() {
        return false;
    }
    let mut i: usize = 0;
    while i < a.len()
        invariant
            i <= a@.len(),
            a@.len() == b@.len(),
            forall|j: int| 0 <= j < i ==> lower_byte(a@[j]) == lower_byte(b@[j]),
        decreases a@.len() - i,
    {
        if to_lower(a[i]) != to_lower(b[i]) {
            return false;
        }
        i = i + 1;
    }
    true
}

/// Appends a part of a byte slice.
pub fn append_range(output: &mut Vec<u8>, bytes: &[u8], start: usize, end: usize)
    requires
        start <= end <= bytes@.len(),
    ensures
        final(output)@ == old(output)@ + bytes@.subrange(start as int, end as int),
{
    let mut i: usize = start;
    while i < end
        invariant
            start <= i <= end <= bytes@.len(),
            output@ == old(output)@ + bytes@.subrange(start as int, i as int),
        decreases end - i,
    {
        output.push(bytes[i]);
        assert(bytes@.subrange(start as int, i + 1) =~= bytes@.subrange(
            start as int,
            i as int,
        ).push(bytes@[i as int]));
        i = i + 1;
    }
}

/// Appends a byte slice.
pub fn append_all(output: &mut Vec<u8>, bytes: &[u8])
    ensures
        final(output)@ == old(output)@ + bytes@,
{
    append_range(output, bytes, 0, bytes.len());
    assert(bytes@.subrange(0, bytes@.len() as int) =~= bytes@);
}

/// A copy of a part of a byte slice.
pub fn copy_range(bytes: &[u8], start: usize, end: usize) -> (r: Vec<u8>)
    requires
        start <= end <= bytes@.len(),
    ensures
        r@ == bytes@.subrange(start as int, end as int),
{
    let mut output: Vec<u8> = Vec::new();
    append_range(&mut output, bytes, start, end);
    assert(output@ =~= bytes@.subrange(start as int, end as int));
    output
}

/// A copy of a byte slice.
pub fn copy_all(bytes: &[u8]) -> (r: Vec<u8>)
    ensures
        r@ == bytes@,
{
    let output = copy_range(bytes, 0, bytes.len());
    assert(bytes@.subrange(0, bytes@.len() as int) =~= bytes@);
    output
}

// ---------------------------------------------------------------------------------------------
// UTF-8
// ---------------------------------------------------------------------------------------------

/// Calls `String::from_utf8`, which checks that its argument is well-formed UTF-8 and hands back
/// the text, or refuses it. Claimed: text comes back for well-formed UTF-8 and only for it, and
/// it is the text that the bytes encode.
#[verifier::external_body]
pub(crate) fn utf8_text(bytes: &[u8]) -> (r: Option<String>)
    ensures
        match r {
            Some(text) => valid_utf8(bytes@) && text@ == decode_utf8(bytes@),
            None => !valid_utf8(bytes@),
        },
{
    String::from_utf8(bytes.to_vec()).ok()
}

/// `String::push` appends one character.
pub assume_specification[ String::push ](string: &mut String, character: char)
    ensures
        final(string)@ == old(string)@.push(character),
;

/// The bounds of an ASCII byte are character boundaries.
pub proof fn lemma_ascii_boundaries(s: Seq<u8>, i: int)
    requires
        valid_utf8(s),
        0 <= i < s.len(),
        s[i] < 0x80,
    ensures
        is_char_boundary(s, i),
        is_char_boundary(s, i + 1),
{
    is_char_boundary_iff_not_is_continuation_byte(s, i);
    if i + 1 == s.len() {
        is_char_boundary_start_end_of_seq(s);
    } else {
        valid_utf8_split(s, i);
        let t = s.subrange(i, s.len() as int);
        assert(t[0] == s[i]);
        assert(length_of_first_scalar(t) == 1);
        assert(pop_first_scalar(t) =~= s.subrange(i + 1, s.len() as int));
        let u = s.subrange(i + 1, s.len() as int);
        assert(valid_utf8(u));
        assert(valid_first_scalar(u));
        assert(u[0] == s[i + 1]);
        assert(!is_continuation_byte(s[i + 1]));
        is_char_boundary_iff_not_is_continuation_byte(s, i + 1);
    }
}

/// A boundary of a text is a boundary of each part of it that holds the place.
pub proof fn lemma_boundary_within(s: Seq<u8>, start: int, at: int, end: int)
    requires
        valid_utf8(s),
        0 <= start <= at <= end <= s.len(),
        is_char_boundary(s, start),
        is_char_boundary(s, at),
        is_char_boundary(s, end),
    ensures
        valid_utf8(s.subrange(start, end)),
        is_char_boundary(s.subrange(start, end), at - start),
{
    valid_utf8_split(s, end);
    let head = s.subrange(0, end);
    if start < end {
        is_char_boundary_iff_not_is_continuation_byte(s, start);
        assert(head[start] == s[start]);
        is_char_boundary_iff_not_is_continuation_byte(head, start);
    } else {
        is_char_boundary_start_end_of_seq(head);
    }
    valid_utf8_split(head, start);
    let part = s.subrange(start, end);
    assert(head.subrange(start, head.len() as int) =~= part);
    if at < end {
        is_char_boundary_iff_not_is_continuation_byte(s, at);
        assert(part[at - start] == s[at]);
        is_char_boundary_iff_not_is_continuation_byte(part, at - start);
    } else {
        is_char_boundary_start_end_of_seq(part);
    }
}

/// A boundary of a part of a text is a boundary of the text.
pub proof fn lemma_boundary_of_part(s: Seq<u8>, start: int, end: int, at: int)
    requires
        valid_utf8(s),
        0 <= start <= end <= s.len(),
        is_char_boundary(s, start),
        is_char_boundary(s, end),
        0 <= at <= end - start,
        is_char_boundary(s.subrange(start, end), at),
    ensures
        is_char_boundary(s, start + at),
{
    if at < end - start {
        let part = s.subrange(start, end);
        lemma_boundary_within(s, start, start, end);
        assert(part[at] == s[start + at]);
        is_char_boundary_iff_not_is_continuation_byte(part, at);
        is_char_boundary_iff_not_is_continuation_byte(s, start + at);
    }
}

/// Where two texts are joined there is a boundary.
pub proof fn lemma_boundary_at_join(a: Seq<u8>, b: Seq<u8>)
    requires
        valid_utf8(a),
        valid_utf8(b),
    ensures
        valid_utf8(a + b),
        is_char_boundary(a + b, a.len() as int),
{
    valid_utf8_concat(a, b);
    if b.len() == 0 {
        is_char_boundary_start_end_of_seq(a + b);
    } else {
        assert((a + b)[a.len() as int] == b[0]);
        assert(is_char_boundary(b, 0));
        is_char_boundary_iff_not_is_continuation_byte(b, 0);
        is_char_boundary_iff_not_is_continuation_byte(a + b, a.len() as int);
    }
}

/// Both ends of an occurrence of an ASCII text are boundaries.
pub proof fn lemma_ascii_occurrence(s: Seq<u8>, needle: Seq<u8>, at: int)
    requires
        valid_utf8(s),
        occurs_at(s, needle, at),
        needle.len() > 0,
        forall|i: int| 0 <= i < needle.len() ==> #[trigger] needle[i] < 0x80,
    ensures
        is_char_boundary(s, at),
        is_char_boundary(s, at + needle.len()),
{
    let part = s.subrange(at, at + needle.len());
    assert(s[at] == part[0]);
    assert(s[at + needle.len() - 1] == part[needle.len() - 1]);
    lemma_ascii_boundaries(s, at);
    lemma_ascii_boundaries(s, at + needle.len() - 1);
}

/// The characters of a text and the bytes that hold it determine each other.
pub proof fn lemma_text_bytes(text: Seq<char>)
    ensures
        valid_utf8(encode_utf8(text)),
        decode_utf8(encode_utf8(text)) == text,
{
    encode_utf8_valid_utf8(text);
    encode_utf8_decode_utf8(text);
}

/// The bytes of joined texts are the joined bytes.
pub proof fn lemma_encode_concat(a: Seq<char>, b: Seq<char>)
    ensures
        encode_utf8(a + b) == encode_utf8(a) + encode_utf8(b),
    decreases a.len(),
{
    if a.len() == 0 {
        assert(a + b =~= b);
        assert(encode_utf8(a) =~= Seq::<u8>::empty());
        assert(encode_utf8(a) + encode_utf8(b) =~= encode_utf8(b));
    } else {
        lemma_encode_concat(a.drop_first(), b);
        assert((a + b).drop_first() =~= a.drop_first() + b);
        assert((a + b)[0] == a[0]);
        assert(encode_utf8(a + b) =~= encode_utf8(a) + encode_utf8(b));
    }
}

/// The text of joined well-formed bytes is the joined text.
pub proof fn lemma_decode_concat(a: Seq<u8>, b: Seq<u8>)
    requires
        valid_utf8(a),
        valid_utf8(b),
    ensures
        valid_utf8(a + b),
        decode_utf8(a + b) == decode_utf8(a) + decode_utf8(b),
{
    decode_utf8_encode_utf8(a);
    decode_utf8_encode_utf8(b);
    lemma_encode_concat(decode_utf8(a), decode_utf8(b));
    lemma_text_bytes(decode_utf8(a) + decode_utf8(b));
}

/// The part of a text between two byte offsets.
pub fn slice_text(text: &str, start: usize, end: usize) -> (r: &str)
    requires
        start <= end <= encode_utf8(text@).len(),
        is_char_boundary(encode_utf8(text@), start as int),
        is_char_boundary(encode_utf8(text@), end as int),
    ensures
        encode_utf8(r@) == encode_utf8(text@).subrange(start as int, end as int),
        r@ == decode_utf8(encode_utf8(text@).subrange(start as int, end as int)),
{
    proof {
        lemma_text_bytes(text@);
        lemma_boundary_within(encode_utf8(text@), 0, start as int, end as int);
    }
    let (head, _) = text.split_at(end);
    let (_, part) = head.split_at(start);
    proof {
        lemma_text_bytes(part@);
        assert(encode_utf8(part@) =~= encode_utf8(text@).subrange(start as int, end as int));
    }
    part
}

/// The bytes of a text of ASCII characters are its characters.
pub proof fn lemma_ascii_bytes(text: Seq<char>)
    requires
        is_ascii_chars(text),
    ensures
        encode_utf8(text) == Seq::new(text.len(), |i: int| text[i] as u8),
{
    is_ascii_chars_encode_utf8(text);
    assert(encode_utf8(text) =~= Seq::new(text.len(), |i: int| text[i] as u8));
}

// ---------------------------------------------------------------------------------------------
// Characters
// ---------------------------------------------------------------------------------------------

/// The characters with the Unicode property `White_Space`.
pub open spec fn is_white_char(c: char) -> bool {
    ||| '\u{9}' <= c <= '\u{d}'
    ||| c == ' '
    ||| c == '\u{85}'
    ||| c == '\u{a0}'
    ||| c == '\u{1680}'
    ||| '\u{2000}' <= c <= '\u{200a}'
    ||| c == '\u{2028}'
    ||| c == '\u{2029}'
    ||| c == '\u{202f}'
    ||| c == '\u{205f}'
    ||| c == '\u{3000}'
}

/// Whether `c` has the Unicode property `White_Space`.
pub fn is_white(c: char) -> (r: bool)
    ensures
        r == is_white_char(c),
{
    ('\u{9}' <= c && c <= '\u{d}') || c == ' ' || c == '\u{85}' || c == '\u{a0}' || c == '\u{1680}'
        || ('\u{2000}' <= c && c <= '\u{200a}') || c == '\u{2028}' || c == '\u{2029}' || c
        == '\u{202f}' || c == '\u{205f}' || c == '\u{3000}'
}

/// The characters of a text.
pub fn chars_of(text: &str) -> (r: Vec<char>)
    ensures
        r@ == text@,
{
    let mut chars: Vec<char> = Vec::new();
    for c in iter: text.chars()
        invariant
            chars@ == text@.take(iter.index()),
            iter.seq() == text@,
    {
        chars.push(c);
        assert(text@.take(iter.index() + 1) =~= text@.take(iter.index()).push(c));
    }
    assert(text@.take(text@.len() as int) =~= text@);
    chars
}

/// The text of some of the given characters.
pub fn text_of(chars: &[char], start: usize, end: usize) -> (r: String)
    requires
        start <= end <= chars@.len(),
    ensures
        r@ == chars@.subrange(start as int, end as int),
{
    let mut text: String = String::new();
    let mut i: usize = start;
    while i < end
        invariant
            start <= i <= end <= chars@.len(),
            text@ == chars@.subrange(start as int, i as int),
        decreases end - i,
    {
        text.push(chars[i]);
        assert(chars@.subrange(start as int, i + 1) =~= chars@.subrange(
            start as int,
            i as int,
        ).push(chars@[i as int]));
        i = i + 1;
    }
    text
}

/// The index after the white space that stands in `chars` from `from` on.
pub open spec fn skip_white(chars: Seq<char>, from: int) -> int
    decreases chars.len() - from,
{
    if from < 0 || from >= chars.len() {
        chars.len() as int
    } else if is_white_char(chars[from]) {
        skip_white(chars, from + 1)
    } else {
        from
    }
}

/// The index after the white space that stands in `chars` from `from` on.
pub fn skip_white_from(chars: &[char], from: usize) -> (r: usize)
    requires
        from <= chars@.len(),
    ensures
        r == skip_white(chars@, from as int),
        from <= r <= chars@.len(),
        r < chars@.len() ==> !is_white_char(chars@[r as int]),
{
    let mut i: usize = from;
    while i < chars.len()
        invariant
            from <= i <= chars@.len(),
            skip_white(chars@, from as int) == skip_white(chars@, i as int),
        decreases chars@.len() - i,
    {
        if !is_white(chars[i]) {
            return i;
        }
        i = i + 1;
    }
    i
}

/// The end of the part of `chars[..end]` that is left when its trailing white space is dropped,
/// though not before `start`.
pub open spec fn white_trimmed_end(chars: Seq<char>, start: int, end: int) -> int
    decreases end,
{
    if end <= start || end <= 0 {
        start
    } else if is_white_char(chars[end - 1]) {
        white_trimmed_end(chars, start, end - 1)
    } else {
        end
    }
}

/// The end of the part of `chars` that is left when its trailing white space is dropped, though
/// not before `start`.
pub fn white_trimmed(chars: &[char], start: usize) -> (r: usize)
    requires
        start <= chars@.len(),
    ensures
        r == white_trimmed_end(chars@, start as int, chars@.len() as int),
        start <= r <= chars@.len(),
{
    let mut i: usize = chars.len();
    while i > start
        invariant
            start <= i <= chars@.len(),
            white_trimmed_end(chars@, start as int, chars@.len() as int) == white_trimmed_end(
                chars@,
                start as int,
                i as int,
            ),
        decreases i,
    {
        if !is_white(chars[i - 1]) {
            return i;
        }
        i = i - 1;
    }
    i
}

/// The text without its leading and trailing white space.
pub open spec fn trimmed_text(text: Seq<char>) -> Seq<char> {
    let start = skip_white(text, 0);
    text.subrange(start, white_trimmed_end(text, start, text.len() as int))
}

/// Bounds of what trimming leaves.
pub proof fn lemma_trim_bounds(text: Seq<char>, from: int, end: int)
    requires
        0 <= from <= end <= text.len(),
    ensures
        from <= skip_white(text, from) <= text.len(),
        from <= white_trimmed_end(text, from, end) <= end,
    decreases text.len() - from, end,
{
    if from < text.len() && is_white_char(text[from]) && from + 1 <= end {
        lemma_trim_bounds(text, from + 1, end);
    } else if from < text.len() && is_white_char(text[from]) {
        lemma_trim_bounds(text, from + 1, from + 1);
    }
    if from < end && is_white_char(text[end - 1]) {
        lemma_white_trimmed_end(text, from, end);
    }
}

proof fn lemma_white_trimmed_end(text: Seq<char>, start: int, end: int)
    requires
        0 <= start <= end <= text.len(),
    ensures
        start <= white_trimmed_end(text, start, end) <= end,
    decreases end,
{
    if start < end && is_white_char(text[end - 1]) {
        lemma_white_trimmed_end(text, start, end - 1);
    }
}

/// The ASCII lower-case form of a character.
pub open spec fn lower_char(c: char) -> char {
    if 'A' <= c <= 'Z' {
        ((c as u32 + 32) as u32) as char
    } else {
        c
    }
}

/// The text with its ASCII letters in lower case.
pub open spec fn lower_text(text: Seq<char>) -> Seq<char> {
    text.map_values(|c: char| lower_char(c))
}

/// The ASCII lower-case form of a character.
fn lower(c: char) -> (r: char)
    ensures
        r == lower_char(c),
{
    if 'A' <= c && c <= 'Z' {
        ((c as u8) + 32) as char
    } else {
        c
    }
}

/// The text with its ASCII letters in lower case.
pub fn to_lower_text(text: &str) -> (r: String)
    ensures
        r@ == lower_text(text@),
{
    let chars = chars_of(text);
    let mut output: String = String::new();
    let mut i: usize = 0;
    while i < chars.len()
        invariant
            i <= chars@.len(),
            chars@ == text@,
            output@ == lower_text(text@.take(i as int)),
        decreases chars@.len() - i,
    {
        output.push(lower(chars[i]));
        assert(lower_text(text@.take(i + 1)) =~= lower_text(text@.take(i as int)).push(
            lower_char(text@[i as int]),
        ));
        i = i + 1;
    }
    assert(text@.take(text@.len() as int) =~= text@);
    output
}

/// Whether two texts are equal.
pub fn same_text(a: &str, b: &str) -> (r: bool)
    ensures
        r == (a@ == b@),
{
    let r = same_bytes(a.as_bytes(), b.as_bytes());
    proof {
        lemma_text_bytes(a@);
        lemma_text_bytes(b@);
    }
    r
}

/// Two texts, one after the other.
pub fn join2(a: &str, b: &str) -> (r: String)
    ensures
        r@ == a@ + b@,
{
    a.to_owned().concat(b)
}

/// Three texts, one after the other.
pub fn join3(a: &str, b: &str, c: &str) -> (r: String)
    ensures
        r@ == a@ + b@ + c@,
{
    a.to_owned().concat(b).concat(c)
}

/// Five texts, one after the other.
pub fn join5(a: &str, b: &str, c: &str, d: &str, e: &str) -> (r: String)
    ensures
        r@ == a@ + b@ + c@ + d@ + e@,
{
    a.to_owned().concat(b).concat(c).concat(d).concat(e)
}

// ---------------------------------------------------------------------------------------------
// Laws
// ---------------------------------------------------------------------------------------------

proof fn lemma_skips_white(text: Seq<char>, from: int)
    requires
        0 <= from <= text.len(),
    ensures
        from <= skip_white(text, from) <= text.len(),
        forall|i: int| from <= i < skip_white(text, from) ==> is_white_char(#[trigger] text[i]),
        skip_white(text, from) < text.len() ==> !is_white_char(text[skip_white(text, from)]),
    decreases text.len() - from,
{
    if from < text.len() && is_white_char(text[from]) {
        lemma_skips_white(text, from + 1);
    }
}

proof fn lemma_trims_white(text: Seq<char>, start: int, end: int)
    requires
        0 <= start <= end <= text.len(),
    ensures
        start <= white_trimmed_end(text, start, end) <= end,
        forall|i: int|
            white_trimmed_end(text, start, end) <= i < end ==> is_white_char(#[trigger] text[i]),
        white_trimmed_end(text, start, end) > start ==> !is_white_char(
            text[white_trimmed_end(text, start, end) - 1],
        ),
    decreases end,
{
    if start < end && is_white_char(text[end - 1]) {
        lemma_trims_white(text, start, end - 1);
    }
}

/// White space is what has the Unicode property `White_Space`, and of bytes what is white space in
/// ASCII, the vertical tab excepted.
pub proof fn law_white_space_is_that_of_unicode(c: char, b: u8)
    ensures
        is_white_char(c) <==> {
            let n = c as int;
            ||| n == 9 || n == 10 || n == 11 || n == 12 || n == 13 || n == 32
            ||| n == 133 || n == 160 || n == 5760
            ||| n == 8192 || n == 8193 || n == 8194 || n == 8195 || n == 8196 || n == 8197
            ||| n == 8198 || n == 8199 || n == 8200 || n == 8201 || n == 8202
            ||| n == 8232 || n == 8233 || n == 8239 || n == 8287 || n == 12288
        },
        is_space_byte(b) <==> (b == 9 || b == 10 || b == 12 || b == 13 || b == 32),
{
}

/// Trimming drops the white space at both ends of a text and nothing else: what is left stands
/// between white space, and neither begins nor ends with any.
pub proof fn law_trimming_drops_white_space_only(text: Seq<char>)
    ensures
        exists|start: int, end: int|
            {
                &&& 0 <= start <= end <= text.len()
                &&& trimmed_text(text) == #[trigger] text.subrange(start, end)
                &&& forall|i: int|
                    0 <= i < start || end <= i < text.len() ==> is_white_char(#[trigger] text[i])
                &&& start < end ==> !is_white_char(text[start]) && !is_white_char(text[end - 1])
            },
{
    let start = skip_white(text, 0);
    let end = white_trimmed_end(text, start, text.len() as int);
    lemma_skips_white(text, 0);
    lemma_trims_white(text, start, text.len() as int);
    assert(trimmed_text(text) == text.subrange(start, end));
}

/// A text with a character that is not white space is not blank.
pub proof fn lemma_not_blank(text: Seq<char>, i: int)
    requires
        0 <= i < text.len(),
        !is_white_char(text[i]),
    ensures
        trimmed_text(text).len() > 0,
{
    let start = skip_white(text, 0);
    lemma_skips_white(text, 0);
    lemma_trims_white(text, start, text.len() as int);
}

/// A text of white space is blank.
pub proof fn lemma_blank_text(text: Seq<char>)
    requires
        forall|i: int| 0 <= i < text.len() ==> is_white_char(#[trigger] text[i]),
    ensures
        trimmed_text(text).len() == 0,
{
    let start = skip_white(text, 0);
    lemma_skips_white(text, 0);
    lemma_trims_white(text, start, text.len() as int);
}

/// Two texts are the same in lower case just where each of their characters is the same or is one
/// letter from `A` to `Z` in the two cases.
pub proof fn law_lower_case_forgets_the_case_of_letters(a: Seq<char>, b: Seq<char>)
    ensures
        lower_text(a) == lower_text(b) <==> a.len() == b.len() && forall|i: int|
            0 <= i < a.len() ==> #[trigger] a[i] == b[i] || is_other_case(a[i], b[i])
                || is_other_case(b[i], a[i]),
{
    if lower_text(a) == lower_text(b) {
        assert(lower_text(a).len() == a.len() && lower_text(b).len() == b.len());
        assert forall|i: int| 0 <= i < a.len() implies #[trigger] a[i] == b[i] || is_other_case(
            a[i],
            b[i],
        ) || is_other_case(b[i], a[i]) by {
            assert(lower_text(a)[i] == lower_char(a[i]));
            assert(lower_text(b)[i] == lower_char(b[i]));
        }
    }
    if a.len() == b.len() && forall|i: int|
        0 <= i < a.len() ==> #[trigger] a[i] == b[i] || is_other_case(a[i], b[i]) || is_other_case(
            b[i],
            a[i],
        ) {
        assert forall|i: int| 0 <= i < a.len() implies #[trigger] lower_text(a)[i] == lower_text(
            b,
        )[i] by {
            assert(a[i] == b[i] || is_other_case(a[i], b[i]) || is_other_case(b[i], a[i]));
        }
        assert(lower_text(a) =~= lower_text(b));
    }
}

/// Whether the first of two characters is a letter from `A` to `Z` and the second the same in lower
/// case.
pub open spec fn is_other_case(upper: char, lower: char) -> bool {
    'A' <= upper <= 'Z' && lower as int == upper as int + 32
}

/// Two byte strings are equal ignoring case just where each of their bytes is the same or is one
/// letter from `A` to `Z` in the two cases.
pub proof fn law_ignoring_case_ignores_letters_only(a: Seq<u8>, b: Seq<u8>)
    ensures
        equal_ignoring_case(a, b) <==> a.len() == b.len() && forall|i: int|
            0 <= i < a.len() ==> #[trigger] a[i] == b[i] || (0x41 <= a[i] <= 0x5A && b[i] == a[i]
                + 0x20) || (0x41 <= b[i] <= 0x5A && a[i] == b[i] + 0x20),
{
    if a.len() == b.len() && forall|i: int|
        0 <= i < a.len() ==> #[trigger] a[i] == b[i] || (0x41 <= a[i] <= 0x5A && b[i] == a[i]
            + 0x20) || (0x41 <= b[i] <= 0x5A && a[i] == b[i] + 0x20) {
        assert forall|i: int| 0 <= i < a.len() implies lower_byte(a[i]) == lower_byte(b[i]) by {
            assert(a[i] == b[i] || (0x41 <= a[i] <= 0x5A && b[i] == a[i] + 0x20) || (0x41 <= b[i]
                <= 0x5A && a[i] == b[i] + 0x20));
        }
    }
}

/// What a search finds is the first place at or after `from` where the bytes stand; it finds nothing
/// only where they stand nowhere there.
pub proof fn law_a_search_finds_the_first_place(haystack: Seq<u8>, needle: Seq<u8>, from: int)
    requires
        0 <= from,
        needle.len() > 0,
    ensures
        match find_from(haystack, needle, from) {
            Some(at) => {
                &&& from <= at
                &&& at + needle.len() <= haystack.len()
                &&& forall|k: int|
                    0 <= k < needle.len() ==> #[trigger] haystack[at + k] == needle[k]
                &&& forall|j: int|
                    from <= j < at ==> #[trigger] haystack.subrange(j, j + needle.len()) != needle
            },
            None => forall|j: int|
                from <= j <= haystack.len() - needle.len() ==> #[trigger] haystack.subrange(
                    j,
                    j + needle.len(),
                ) != needle,
        },
{
    lemma_find_from(haystack, needle, from);
    match find_from(haystack, needle, from) {
        Some(at) => {
            assert forall|k: int| 0 <= k < needle.len() implies #[trigger] haystack[at + k]
                == needle[k] by {
                assert(haystack.subrange(at, at + needle.len())[k] == haystack[at + k]);
            }
            assert forall|j: int| from <= j < at implies #[trigger] haystack.subrange(
                j,
                j + needle.len(),
            ) != needle by {
                assert(!occurs_at(haystack, needle, j));
            }
        },
        None => {
            assert forall|j: int|
                from <= j <= haystack.len() - needle.len() implies #[trigger] haystack.subrange(
                j,
                j + needle.len(),
            ) != needle by {
                assert(!occurs_at(haystack, needle, j));
            }
        },
    }
}

/// Where the ends of a trimmed text lie.
pub proof fn lemma_trimmed_ends(text: Seq<char>)
    ensures
        ({
            let start = skip_white(text, 0);
            let end = white_trimmed_end(text, start, text.len() as int);
            &&& 0 <= start <= end <= text.len()
            &&& trimmed_text(text) == text.subrange(start, end)
            &&& forall|i: int|
                0 <= i < start || end <= i < text.len() ==> is_white_char(#[trigger] text[i])
            &&& start < end ==> !is_white_char(text[start]) && !is_white_char(text[end - 1])
        }),
{
    let start = skip_white(text, 0);
    lemma_skips_white(text, 0);
    lemma_trims_white(text, start, text.len() as int);
}

} // verus!
