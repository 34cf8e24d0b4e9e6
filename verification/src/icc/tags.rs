//! The tag table of a profile and the data that its tags hold.

use vstd::prelude::*;

use crate::icc::header;
use crate::icc::header::{read_number, IccError, Signature};
use crate::text::copy_range;

verus! {

/// One entry of the tag table: which tag it is, and where its data lies.
#[derive(Debug, Clone, Copy, PartialEq, Eq, Hash, Structural)]
pub struct TagEntry {
    /// The tag.
    pub signature: Signature,
    /// The offset of the data from the start of the profile.
    pub offset: u32,
    /// The size of the data.
    pub size: u32,
}

/// The offset just past a tag table with the given number of entries.
pub open spec fn table_end(count: nat) -> nat {
    132 + 12 * count
}

/// The entry with index `i` of the tag table.
pub open spec fn entry_at(bytes: Seq<u8>, i: int) -> TagEntry {
    TagEntry {
        signature: Signature { code: header::number_at(bytes, 132 + 12 * i) },
        offset: header::number_at(bytes, 136 + 12 * i),
        size: header::number_at(bytes, 140 + 12 * i),
    }
}

/// The first `count` entries of the tag table.
pub open spec fn entries_of(bytes: Seq<u8>, count: nat) -> Seq<TagEntry> {
    Seq::new(count, |i: int| entry_at(bytes, i))
}

/// Whether no two entries are for the same tag.
pub open spec fn distinct_tags(entries: Seq<TagEntry>) -> bool {
    forall|i: int, j: int|
        0 <= i < j < entries.len() ==> (#[trigger] entries[i]).signature != (
        #[trigger] entries[j]).signature
}

/// The entries of the tag table, or what is wrong with the table.
pub open spec fn tag_table(bytes: Seq<u8>) -> Result<Seq<TagEntry>, IccError> {
    if bytes.len() < 132 {
        Err(IccError::Malformed("the tag table is truncated"))
    } else {
        let count = header::number_at(bytes, 128) as nat;
        if table_end(count) > bytes.len() {
            Err(IccError::Malformed("the tag table is truncated"))
        } else if !distinct_tags(entries_of(bytes, count)) {
            Err(IccError::Malformed("a tag occurs twice"))
        } else {
            Ok(entries_of(bytes, count))
        }
    }
}

/// The offset just past a tag table with the given number of entries.
pub fn tag_table_end(count: usize) -> (r: usize)
    requires
        table_end(count as nat) <= usize::MAX,
    ensures
        r == table_end(count as nat),
{
    132 + 12 * count
}

/// Whether one of the entries is for the given tag.
fn has_tag(entries: &Vec<TagEntry>, signature: Signature) -> (r: bool)
    ensures
        r == (exists|i: int|
            0 <= i < entries@.len() && (#[trigger] entries@[i]).signature == signature),
{
    let length: usize = entries.len();
    let mut i: usize = 0;
    while i < length
        invariant
            i <= length == entries@.len(),
            forall|j: int| 0 <= j < i ==> (#[trigger] entries@[j]).signature != signature,
        decreases length - i,
    {
        if entries[i].signature == signature {
            return true;
        }
        i = i + 1;
    }
    false
}

/// Reads the tag table.
pub fn read_table(bytes: &[u8]) -> (r: Result<Vec<TagEntry>, IccError>)
    ensures
        match r {
            Ok(entries) => tag_table(bytes@) == Ok::<Seq<TagEntry>, IccError>(entries@)
                && table_end(entries@.len()) <= usize::MAX,
            Err(error) => tag_table(bytes@) == Err::<Seq<TagEntry>, IccError>(error),
        },
{
    let length: usize = bytes.len();
    if length < 132 {
        return Err(IccError::Malformed("the tag table is truncated"));
    }
    let declared: u32 = read_number(bytes, 128);
    if (declared as u64) * 12 + 132 > length as u64 {
        return Err(IccError::Malformed("the tag table is truncated"));
    }
    let count: usize = declared as usize;
    let ghost all = entries_of(bytes@, count as nat);
    let mut entries: Vec<TagEntry> = Vec::new();
    let mut i: usize = 0;
    while i < count
        invariant
            i <= count,
            table_end(count as nat) <= bytes@.len() == length,
            declared == count,
            count == header::number_at(bytes@, 128),
            all == entries_of(bytes@, count as nat),
            entries@ == all.take(i as int),
            distinct_tags(entries@),
        decreases count - i,
    {
        let at: usize = 132 + 12 * i;
        let entry = TagEntry {
            signature: Signature { code: read_number(bytes, at) },
            offset: read_number(bytes, at + 4),
            size: read_number(bytes, at + 8),
        };
        assert(entry == all[i as int]);
        if has_tag(&entries, entry.signature) {
            proof {
                let j = choose|j: int|
                    0 <= j < entries@.len() && (#[trigger] entries@[j]).signature
                        == entry.signature;
                assert(all[j] == entries@[j]);
                assert(all[j].signature == all[i as int].signature);
                assert(!distinct_tags(all));
            }
            return Err(IccError::Malformed("a tag occurs twice"));
        }
        entries.push(entry);
        assert(entries@ =~= all.take(i + 1));
        i = i + 1;
    }
    assert(entries@ =~= all);
    Ok(entries)
}

/// The decoded data of a tag.
#[derive(Debug, PartialEq, Eq)]
#[non_exhaustive]
pub enum TagData {
    /// A text (`text`).
    Text(String),
    /// The readable text of a description (`desc`).
    Description(String),
    /// Data of another type, which is kept as it stands.
    Other {
        /// The type of the data.
        kind: Signature,
        /// The bytes after the type and its reserved bytes.
        data: Vec<u8>,
    },
}

/// What the data of a tag says.
pub enum TagView {
    /// A text.
    Text(Seq<char>),
    /// The readable text of a description.
    Description(Seq<char>),
    /// Data of another type.
    Other(Signature, Seq<u8>),
}

impl View for TagData {
    type V = TagView;

    open spec fn view(&self) -> TagView {
        match self {
            TagData::Text(text) => TagView::Text(text@),
            TagData::Description(text) => TagView::Description(text@),
            TagData::Other { kind, data } => TagView::Other(*kind, data@),
        }
    }
}

/// The characters of bytes before the first zero byte, each byte being a character code.
pub open spec fn characters(bytes: Seq<u8>) -> Seq<char>
    decreases bytes.len(),
{
    if bytes.len() == 0 || bytes[0] == 0 {
        seq![]
    } else {
        seq![bytes[0] as char] + characters(bytes.skip(1))
    }
}

/// The data of a tag as the entry delimits it, or what is wrong with it.
pub open spec fn tag_data(data: Seq<u8>) -> Result<TagView, IccError> {
    if data.len() < 8 {
        Err(IccError::Malformed("the tag data is too short"))
    } else {
        let kind = header::number_at(data, 0);
        if kind == 0x74657874 {
            Ok(TagView::Text(characters(data.skip(8))))
        } else if kind == 0x64657363 {
            if data.len() < 12 || 12 + header::number_at(data, 8) > data.len() {
                Err(IccError::Malformed("the description is too short"))
            } else {
                Ok(
                    TagView::Description(
                        characters(data.subrange(12, 12 + header::number_at(data, 8))),
                    ),
                )
            }
        } else {
            Ok(TagView::Other(Signature { code: kind }, data.skip(8)))
        }
    }
}

/// What the tag of an entry holds, or what is wrong with it.
///
/// The data has to lie inside the profile; in strict mode it may not begin before the end of the
/// tag table either.
pub open spec fn entry_data(
    bytes: Seq<u8>,
    entry: TagEntry,
    strict: bool,
    data_start: int,
) -> Result<TagView, IccError> {
    if entry.offset + entry.size > bytes.len() {
        Err(IccError::Malformed("the tag data lies outside the profile"))
    } else if strict && entry.offset < data_start {
        Err(IccError::Malformed("the tag data overlaps the header or the tag table"))
    } else {
        tag_data(bytes.subrange(entry.offset as int, entry.offset + entry.size))
    }
}

/// The decoded data, seen as what it says.
pub open spec fn data_outcome(result: Result<TagData, IccError>) -> Result<TagView, IccError> {
    match result {
        Ok(data) => Ok(data@),
        Err(error) => Err(error),
    }
}

/// The character with the given code.
fn character(byte: u8) -> (r: char)
    ensures
        r == byte as char,
{
    byte as char
}

/// Reads the characters of a range of bytes up to its first zero byte.
fn read_characters(bytes: &[u8], start: usize, end: usize) -> (r: String)
    requires
        start <= end <= bytes@.len(),
    ensures
        r@ == characters(bytes@.subrange(start as int, end as int)),
{
    let length: usize = bytes.len();
    let mut out = String::new();
    let mut i: usize = start;
    let ghost all = bytes@.subrange(start as int, end as int);
    assert(out@ + characters(all) =~= characters(all));
    while i < end
        invariant
            start <= i <= end <= bytes@.len() == length,
            characters(all) == out@ + characters(bytes@.subrange(i as int, end as int)),
            all == bytes@.subrange(start as int, end as int),
        decreases end - i,
    {
        let ghost rest = bytes@.subrange(i as int, end as int);
        if bytes[i] == 0 {
            assert(rest[0] == 0);
            assert(out@ + characters(rest) =~= out@);
            return out;
        }
        let ghost before = out@;
        out.push(character(bytes[i]));
        proof {
            assert(rest[0] == bytes@[i as int]);
            assert(rest.skip(1) =~= bytes@.subrange(i + 1, end as int));
            assert(before + (seq![rest[0] as char] + characters(rest.skip(1))) =~= out@
                + characters(rest.skip(1)));
        }
        i = i + 1;
    }
    assert(out@ + characters(bytes@.subrange(i as int, end as int)) =~= out@);
    out
}

/// Decodes the data of the tag of an entry.
pub fn decode_entry(bytes: &[u8], entry: TagEntry, strict: bool, data_start: usize) -> (r: Result<
    TagData,
    IccError,
>)
    ensures
        data_outcome(r) == entry_data(bytes@, entry, strict, data_start as int),
{
    let length: usize = bytes.len();
    if (entry.offset as u64) + (entry.size as u64) > length as u64 {
        return Err(IccError::Malformed("the tag data lies outside the profile"));
    }
    let start: usize = entry.offset as usize;
    let size: usize = entry.size as usize;
    if strict && start < data_start {
        return Err(IccError::Malformed("the tag data overlaps the header or the tag table"));
    }
    let ghost data = bytes@.subrange(start as int, start + size);
    if size < 8 {
        return Err(IccError::Malformed("the tag data is too short"));
    }
    let kind: u32 = read_number(bytes, start);
    assert(kind == header::number_at(data, 0));
    if kind == 0x74657874 {
        assert(data.skip(8) =~= bytes@.subrange(start + 8, start + size));
        Ok(TagData::Text(read_characters(bytes, start + 8, start + size)))
    } else if kind == 0x64657363 {
        if size < 12 {
            return Err(IccError::Malformed("the description is too short"));
        }
        let count: u32 = read_number(bytes, start + 8);
        assert(count == header::number_at(data, 8));
        if (count as usize) > size - 12 {
            return Err(IccError::Malformed("the description is too short"));
        }
        assert(data.subrange(12, 12 + count) =~= bytes@.subrange(start + 12, start + 12 + count));
        Ok(TagData::Description(read_characters(bytes, start + 12, start + 12 + count as usize)))
    } else {
        assert(data.skip(8) =~= bytes@.subrange(start + 8, start + size));
        Ok(
            TagData::Other {
                kind: Signature { code: kind },
                data: copy_range(bytes, start + 8, start + size),
            },
        )
    }
}

// ---------------------------------------------------------------------------------------------
// Laws
// ---------------------------------------------------------------------------------------------

/// Characters end before the first zero byte, or with the bytes where there is none; each of them is
/// the one with the code of its byte.
pub proof fn law_characters_reach_to_the_first_zero(bytes: Seq<u8>)
    ensures
        ({
            let text = characters(bytes);
            &&& text.len() <= bytes.len()
            &&& forall|i: int|
                0 <= i < text.len() ==> #[trigger] text[i] == bytes[i] as char && bytes[i] != 0
            &&& text.len() < bytes.len() ==> bytes[text.len() as int] == 0
        }),
    decreases bytes.len(),
{
    if bytes.len() > 0 && bytes[0] != 0 {
        let rest = bytes.skip(1);
        law_characters_reach_to_the_first_zero(rest);
        assert forall|i: int| 0 <= i < characters(bytes).len() implies #[trigger] characters(
            bytes,
        )[i] == bytes[i] as char && bytes[i] != 0 by {
            assert(characters(bytes)[0] == bytes[0] as char);
            if i > 0 {
                assert(characters(bytes)[i] == characters(rest)[i - 1]);
                assert(rest[i - 1] == bytes[i]);
            }
        }
        let next = characters(rest).len() as int;
        if next < rest.len() {
            assert(rest[next] == bytes[next + 1]);
        }
    }
}

/// Whether a text is what the bytes of a range say up to the first zero byte: a character for each
/// byte, with its code.
pub open spec fn spells(text: Seq<char>, bytes: Seq<u8>, start: int, end: int) -> bool {
    &&& start + text.len() <= end
    &&& forall|i: int|
        0 <= i < text.len() ==> #[trigger] text[i] == bytes[start + i] as char && bytes[start + i]
            != 0
    &&& start + text.len() < end ==> bytes[start + text.len()] == 0
}

/// The four bytes of a number stand in their order, the highest first.
pub proof fn law_numbers_are_big_endian(bytes: Seq<u8>, at: int, number: u32)
    requires
        0 <= at,
        at + 4 <= bytes.len(),
        number / 0x1000000 == bytes[at],
        number / 0x10000 % 0x100 == bytes[at + 1],
        number / 0x100 % 0x100 == bytes[at + 2],
        number % 0x100 == bytes[at + 3],
    ensures
        header::number_at(bytes, at) == number,
{
    let rest = number / 0x100;
    let third = rest / 0x100;
    assert(number / 0x10000 == third) by (nonlinear_arith)
        requires
            rest == number / 0x100,
            third == rest / 0x100,
    ;
    assert(number / 0x1000000 == third / 0x100) by (nonlinear_arith)
        requires
            rest == number / 0x100,
            third == rest / 0x100,
    ;
}

/// Tag data of type `text` is the text that stands behind its first eight bytes.
pub proof fn law_text_data_is_its_text(data: Seq<u8>)
    requires
        data.len() >= 8,
        data[0] == 0x74,
        data[1] == 0x65,
        data[2] == 0x78,
        data[3] == 0x74,
    ensures
        tag_data(data) matches Ok(TagView::Text(text)) && spells(text, data, 8, data.len() as int),
{
    law_characters_reach_to_the_first_zero(data.skip(8));
    let text = characters(data.skip(8));
    assert forall|i: int| 0 <= i < text.len() implies #[trigger] text[i] == data[8 + i] as char
        && data[8 + i] != 0 by {
        assert(text[i] == data.skip(8)[i] as char);
        assert(data.skip(8)[i] == data[8 + i]);
    }
}

/// Tag data of type `desc` is the text of the bytes that are counted behind its first eight bytes,
/// where it holds so many, and is refused where it does not.
pub proof fn law_description_data_is_its_text(data: Seq<u8>, count: int)
    requires
        data.len() >= 12,
        data[0] == 0x64,
        data[1] == 0x65,
        data[2] == 0x73,
        data[3] == 0x63,
        count == data[8] * 0x1000000 + data[9] * 0x10000 + data[10] * 0x100 + data[11],
    ensures
        12 + count <= data.len() ==> (tag_data(data) matches Ok(TagView::Description(text))
            && spells(text, data, 12, 12 + count)),
        12 + count > data.len() ==> tag_data(data) is Err,
{
    assert(header::number_at(data, 8) == count);
    if 12 + count <= data.len() {
        let part = data.subrange(12, 12 + count);
        law_characters_reach_to_the_first_zero(part);
        let text = characters(part);
        assert forall|i: int| 0 <= i < text.len() implies #[trigger] text[i] == data[12
            + i] as char && data[12 + i] != 0 by {
            assert(text[i] == part[i] as char);
            assert(part[i] == data[12 + i]);
        }
        if text.len() < count {
            assert(part[text.len() as int] == data[12 + text.len() as int]);
        }
        assert(spells(text, data, 12, 12 + count));
    }
}

/// Data that is too short for its type is refused, whatever it holds.
pub proof fn law_short_data_is_refused(data: Seq<u8>)
    requires
        data.len() < 8,
    ensures
        tag_data(data) is Err,
{
}

/// Tag data of another type is kept: its type and every byte behind the first eight.
pub proof fn law_other_data_is_kept(data: Seq<u8>)
    requires
        data.len() >= 8,
        data.subrange(0, 4) != seq![0x74u8, 0x65, 0x78, 0x74],
        data.subrange(0, 4) != seq![0x64u8, 0x65, 0x73, 0x63],
    ensures
        tag_data(data) matches Ok(TagView::Other(kind, kept)) && {
            &&& kind.code == data[0] * 0x1000000 + data[1] * 0x10000 + data[2] * 0x100 + data[3]
            &&& data == data.subrange(0, 8) + kept
        },
{
    let kind = header::number_at(data, 0);
    if kind == 0x74657874 {
        assert(data.subrange(0, 4) =~= seq![0x74u8, 0x65, 0x78, 0x74]);
    }
    if kind == 0x64657363 {
        assert(data.subrange(0, 4) =~= seq![0x64u8, 0x65, 0x73, 0x63]);
    }
    assert(data =~= data.subrange(0, 8) + data.skip(8));
}

/// A tag table has as many entries as it declares, each of which holds the three numbers that stand
/// in its twelve bytes. It is refused only where it does not fit the profile or two of its entries
/// are for one tag.
pub proof fn law_the_table_lists_its_entries(bytes: Seq<u8>)
    ensures
        match tag_table(bytes) {
            Ok(entries) => {
                &&& bytes.len() >= 132
                &&& entries.len() == header::number_at(bytes, 128)
                &&& 132 + 12 * entries.len() <= bytes.len()
                &&& forall|i: int|
                    0 <= i < entries.len() ==> {
                        &&& (#[trigger] entries[i]).signature.code == header::number_at(
                            bytes,
                            132 + 12 * i,
                        )
                        &&& entries[i].offset == header::number_at(bytes, 136 + 12 * i)
                        &&& entries[i].size == header::number_at(bytes, 140 + 12 * i)
                    }
                &&& forall|i: int, j: int|
                    0 <= i < j < entries.len() ==> (#[trigger] entries[i]).signature.code != (
                    #[trigger] entries[j]).signature.code
            },
            Err(_) => {
                ||| bytes.len() < 132
                ||| 132 + 12 * header::number_at(bytes, 128) > bytes.len()
                ||| exists|i: int, j: int|
                    0 <= i < j < header::number_at(bytes, 128) && header::number_at(
                        bytes,
                        #[trigger] entry_place(i),
                    ) == header::number_at(bytes, #[trigger] entry_place(j))
            },
        },
{
    if bytes.len() >= 132 {
        let count = header::number_at(bytes, 128) as nat;
        let entries = entries_of(bytes, count);
        if distinct_tags(entries) {
            assert forall|i: int, j: int| 0 <= i < j < entries.len() implies (
            #[trigger] entries[i]).signature.code != (#[trigger] entries[j]).signature.code by {
                assert(entries[i].signature != entries[j].signature);
            }
        } else {
            let (i, j) = choose|i: int, j: int|
                0 <= i < j < entries.len() && (#[trigger] entries[i]).signature == (
                #[trigger] entries[j]).signature;
            assert(header::number_at(bytes, entry_place(i)) == entries[i].signature.code);
            assert(header::number_at(bytes, entry_place(j)) == entries[j].signature.code);
        }
    }
}

/// The offset of the entry with index `i` in a profile.
pub open spec fn entry_place(i: int) -> int {
    132 + 12 * i
}

} // verus!
