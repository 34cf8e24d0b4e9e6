//! The profile reader.

use vstd::prelude::*;

use crate::icc::header;
use crate::icc::header::{IccError, Signature};
use crate::icc::profile;
use crate::icc::profile::{read_profile_index, IccProfile};
use crate::icc::tags;
use crate::icc::tags::{decode_entry, tag_table_end, TagData, TagEntry, TagView};

verus! {

/// Reader for an ICC profile, with parse options.
///
/// The lenient default tolerates nonzero reserved header bytes and tags whose data overlaps the
/// header or the tag table. [`strict`](IccReader::strict) rejects them.
#[derive(Debug, Clone, Copy)]
pub struct IccReader {
    strict: bool,
}

impl View for IccReader {
    type V = bool;

    /// Whether the reader is strict.
    closed spec fn view(&self) -> bool {
        self.strict
    }
}

/// The index of the first entry for a tag, if there is one.
pub open spec fn tag_position(entries: Seq<TagEntry>, signature: Signature) -> Option<int>
    decreases entries.len(),
{
    if entries.len() == 0 {
        None
    } else if entries[0].signature == signature {
        Some(0)
    } else {
        match tag_position(entries.skip(1), signature) {
            Some(i) => Some(i + 1),
            None => None,
        }
    }
}

/// What a reader gives for one tag of a profile.
pub open spec fn selected_tag(bytes: Seq<u8>, signature: Signature, strict: bool) -> Result<
    Option<TagView>,
    IccError,
> {
    match profile::profile_index(bytes, strict) {
        Err(error) => Err(error),
        Ok((_, entries)) => match tag_position(entries, signature) {
            None => Ok(None),
            Some(i) => match tags::entry_data(
                bytes,
                entries[i],
                strict,
                tags::table_end(entries.len()) as int,
            ) {
                Err(error) => Err(error),
                Ok(data) => Ok(Some(data)),
            },
        },
    }
}

/// The tag, seen as what it says.
pub open spec fn tag_outcome(result: Result<Option<TagData>, IccError>) -> Result<
    Option<TagView>,
    IccError,
> {
    match result {
        Ok(Some(data)) => Ok(Some(data@)),
        Ok(None) => Ok(None),
        Err(error) => Err(error),
    }
}

/// The first entry for a tag, if there is one.
fn find_tag(entries: &Vec<TagEntry>, signature: Signature) -> (r: Option<usize>)
    ensures
        match r {
            Some(i) => tag_position(entries@, signature) == Some(i as int) && i < entries@.len(),
            None => tag_position(entries@, signature) is None,
        },
{
    let length: usize = entries.len();
    let mut i: usize = 0;
    assert(entries@.skip(0) =~= entries@);
    while i < length
        invariant
            i <= length == entries@.len(),
            match tag_position(entries@.skip(i as int), signature) {
                Some(k) => tag_position(entries@, signature) == Some(k + i),
                None => tag_position(entries@, signature) is None,
            },
        decreases length - i,
    {
        assert(entries@.skip(i as int)[0] == entries@[i as int]);
        if entries[i].signature == signature {
            return Some(i);
        }
        assert(entries@.skip(i as int).skip(1) =~= entries@.skip(i + 1));
        i = i + 1;
    }
    None
}

impl IccReader {
    /// A reader with lenient parsing.
    pub fn new() -> (r: IccReader)
        ensures
            !r@,
    {
        IccReader { strict: false }
    }

    /// Sets whether to reject non-conformant inputs in addition to malformed ones.
    pub fn strict(self, yes: bool) -> (r: IccReader)
        ensures
            r@ == yes,
    {
        IccReader { strict: yes }
    }

    /// Parses an ICC profile from its bytes.
    pub fn parse(&self, bytes: &[u8]) -> (r: Result<IccProfile, IccError>)
        ensures
            profile::profile_outcome(r) == profile::decoded_profile(bytes@, self@),
    {
        IccProfile::parse_with(bytes, self.strict)
    }

    /// Decodes one tag after validating the header and the tag table.
    ///
    /// The payloads of the other tags are not decoded, so this does not validate the complete
    /// profile. An error comes of an invalid header, an invalid table or an invalid selected tag.
    pub fn read_tag(&self, bytes: &[u8], signature: [u8; 4]) -> (r: Result<
        Option<TagData>,
        IccError,
    >)
        ensures
            tag_outcome(r) == selected_tag(bytes@, Signature::of(signature@), self@),
    {
        let (_, entries) = match read_profile_index(bytes, self.strict) {
            Ok(index) => index,
            Err(error) => return Err(error),
        };
        let data_start: usize = tag_table_end(entries.len());
        match find_tag(&entries, Signature::new(signature)) {
            None => Ok(None),
            Some(i) => match decode_entry(bytes, entries[i], self.strict, data_start) {
                Ok(data) => Ok(Some(data)),
                Err(error) => Err(error),
            },
        }
    }
}

impl Default for IccReader {
    fn default() -> (r: IccReader)
        ensures
            !r@,
    {
        IccReader::new()
    }
}

/// Where the tags of entries decode, each one holds what its own entry says.
proof fn lemma_each_tag(
    bytes: Seq<u8>,
    entries: Seq<TagEntry>,
    strict: bool,
    data_start: int,
    i: int,
)
    requires
        0 <= i < entries.len(),
        profile::decoded_tags(bytes, entries, strict, data_start) is Ok,
    ensures
        profile::decoded_tags(bytes, entries, strict, data_start)->Ok_0.len() == entries.len(),
        profile::decoded_tags(bytes, entries, strict, data_start)->Ok_0[i].0
            == entries[i].signature,
        tags::entry_data(bytes, entries[i], strict, data_start) == Ok::<TagView, IccError>(
            profile::decoded_tags(bytes, entries, strict, data_start)->Ok_0[i].1,
        ),
    decreases entries.len(),
{
    if i < entries.len() - 1 {
        lemma_each_tag(bytes, entries.drop_last(), strict, data_start, i);
    } else {
        lemma_tag_count(bytes, entries.drop_last(), strict, data_start);
    }
}

/// Where the tags of entries decode, there are as many of them as entries.
proof fn lemma_tag_count(bytes: Seq<u8>, entries: Seq<TagEntry>, strict: bool, data_start: int)
    requires
        profile::decoded_tags(bytes, entries, strict, data_start) is Ok,
    ensures
        profile::decoded_tags(bytes, entries, strict, data_start)->Ok_0.len() == entries.len(),
    decreases entries.len(),
{
    if entries.len() > 0 {
        lemma_tag_count(bytes, entries.drop_last(), strict, data_start);
    }
}

/// The position of a tag lies in the table, at an entry for that tag; and every entry for the tag
/// is at or after it.
proof fn lemma_tag_position(entries: Seq<TagEntry>, signature: Signature)
    ensures
        match tag_position(entries, signature) {
            Some(i) => 0 <= i < entries.len() && entries[i].signature == signature,
            None => forall|j: int|
                0 <= j < entries.len() ==> (#[trigger] entries[j]).signature != signature,
        },
    decreases entries.len(),
{
    if entries.len() > 0 {
        lemma_tag_position(entries.skip(1), signature);
        assert forall|j: int|
            0 <= j < entries.len() && tag_position(entries, signature) is None implies (
        #[trigger] entries[j]).signature != signature by {
            if j > 0 {
                assert(entries[j] == entries.skip(1)[j - 1]);
            }
        }
    }
}

/// Where a whole profile decodes, reading one tag gives exactly what the profile holds for it:
/// nothing where the profile has no such tag, and otherwise the data of that tag.
pub proof fn law_read_tag_agrees_with_parse(bytes: Seq<u8>, signature: Signature, strict: bool)
    requires
        profile::decoded_profile(bytes, strict) is Ok,
    ensures
        ({
            let tags = profile::decoded_profile(bytes, strict)->Ok_0.tags;
            match selected_tag(bytes, signature, strict) {
                Ok(Some(data)) => tags.contains((signature, data)),
                Ok(None) => forall|i: int| 0 <= i < tags.len() ==> (#[trigger] tags[i]).0 != signature,
                Err(_) => false,
            }
        }),
{
    let (_, entries) = profile::profile_index(bytes, strict)->Ok_0;
    let data_start = tags::table_end(entries.len()) as int;
    let tags = profile::decoded_profile(bytes, strict)->Ok_0.tags;
    lemma_tag_position(entries, signature);
    lemma_tag_count(bytes, entries, strict, data_start);
    match tag_position(entries, signature) {
        Some(i) => {
            lemma_each_tag(bytes, entries, strict, data_start, i);
            assert(tags[i] == (signature, tags[i].1));
        },
        None => {
            assert forall|i: int| 0 <= i < tags.len() implies (#[trigger] tags[i]).0
                != signature by {
                lemma_each_tag(bytes, entries, strict, data_start, i);
                assert(entries[i].signature != signature);
            }
        },
    }
}

/// Reading one tag does not depend on the data of the others: two profiles of one length with the
/// same header and table, and the same data for the tag, give the same.
pub proof fn law_read_tag_ignores_other_data(
    a: Seq<u8>,
    b: Seq<u8>,
    signature: Signature,
    strict: bool,
)
    requires
        a.len() == b.len(),
        profile::profile_index(a, strict) == profile::profile_index(b, strict),
        match profile::profile_index(a, strict) {
            Ok((_, entries)) => match tag_position(entries, signature) {
                Some(i) => entries[i].offset + entries[i].size <= a.len() ==> a.subrange(
                    entries[i].offset as int,
                    entries[i].offset + entries[i].size,
                ) == b.subrange(entries[i].offset as int, entries[i].offset + entries[i].size),
                None => true,
            },
            Err(_) => true,
        },
    ensures
        selected_tag(a, signature, strict) == selected_tag(b, signature, strict),
{
}

/// The tag of each entry of the table is read from the bytes that its entry delimits, wherever the
/// entry stands. It is refused where these lie outside the profile, and in strict mode where they
/// begin before the end of the table.
pub proof fn law_a_tag_is_read_where_its_entry_says(bytes: Seq<u8>, i: int, strict: bool)
    requires
        profile::profile_index(bytes, strict) is Ok,
        0 <= i < header::number_at(bytes, 128),
    ensures
        ({
            let count = header::number_at(bytes, 128);
            let signature = Signature { code: header::number_at(bytes, 132 + 12 * i) };
            let start = header::number_at(bytes, 136 + 12 * i) as int;
            let end = start + header::number_at(bytes, 140 + 12 * i);
            let read = selected_tag(bytes, signature, strict);
            if end > bytes.len() || (strict && start < 132 + 12 * count) {
                read is Err
            } else {
                read == match tags::tag_data(bytes.subrange(start, end)) {
                    Ok(data) => Ok(Some(data)),
                    Err(error) => Err(error),
                }
            }
        }),
{
    let (_, entries) = profile::profile_index(bytes, strict)->Ok_0;
    let signature = Signature { code: header::number_at(bytes, 132 + 12 * i) };
    tags::law_the_table_lists_its_entries(bytes);
    lemma_tag_position(entries, signature);
    assert(entries[i].signature == signature);
    if let Some(k) = tag_position(entries, signature) {
        assert(k == i) by {
            if k < i {
                assert(entries[k].signature.code != entries[i].signature.code);
            }
            if i < k {
                assert(entries[i].signature.code != entries[k].signature.code);
            }
        }
    }
}

/// A tag without an entry in the table is not there.
pub proof fn law_a_tag_without_an_entry_is_absent(bytes: Seq<u8>, signature: Signature, strict: bool)
    requires
        profile::profile_index(bytes, strict) is Ok,
        forall|i: int|
            0 <= i < header::number_at(bytes, 128) ==> header::number_at(
                bytes,
                #[trigger] tags::entry_place(i),
            ) != signature.code,
    ensures
        selected_tag(bytes, signature, strict) == Ok::<Option<TagView>, IccError>(None),
{
    let (_, entries) = profile::profile_index(bytes, strict)->Ok_0;
    tags::law_the_table_lists_its_entries(bytes);
    lemma_tag_position(entries, signature);
    if let Some(k) = tag_position(entries, signature) {
        assert(header::number_at(bytes, tags::entry_place(k)) == entries[k].signature.code);
    }
}

/// A text that stands in a profile is read whole: the tag of an entry whose data is of type `text`
/// is the text with one character for each byte behind the first eight, up to the first zero byte.
pub proof fn law_a_text_in_a_profile_is_read_whole(bytes: Seq<u8>, i: int, strict: bool)
    requires
        profile::profile_index(bytes, strict) is Ok,
        0 <= i < header::number_at(bytes, 128),
        header::number_at(bytes, 140 + 12 * i) >= 8,
        header::number_at(bytes, 136 + 12 * i) + header::number_at(bytes, 140 + 12 * i)
            <= bytes.len(),
        strict ==> header::number_at(bytes, 136 + 12 * i) >= 132 + 12 * header::number_at(
            bytes,
            128,
        ),
        bytes[header::number_at(bytes, 136 + 12 * i) as int] == 0x74,
        bytes[header::number_at(bytes, 136 + 12 * i) + 1] == 0x65,
        bytes[header::number_at(bytes, 136 + 12 * i) + 2] == 0x78,
        bytes[header::number_at(bytes, 136 + 12 * i) + 3] == 0x74,
    ensures
        ({
            let signature = Signature { code: header::number_at(bytes, 132 + 12 * i) };
            let start = header::number_at(bytes, 136 + 12 * i) as int;
            let end = start + header::number_at(bytes, 140 + 12 * i);
            selected_tag(bytes, signature, strict) matches Ok(Some(TagView::Text(text)))
                && tags::spells(text, bytes, start + 8, end)
        }),
{
    let start = header::number_at(bytes, 136 + 12 * i) as int;
    let end = start + header::number_at(bytes, 140 + 12 * i);
    let data = bytes.subrange(start, end);
    law_a_tag_is_read_where_its_entry_says(bytes, i, strict);
    tags::law_text_data_is_its_text(data);
    let text = tags::tag_data(data)->Ok_0->Text_0;
    assert forall|k: int| 0 <= k < text.len() implies #[trigger] text[k] == bytes[start + 8
        + k] as char && bytes[start + 8 + k] != 0 by {
        assert(text[k] == data[8 + k] as char);
        assert(data[8 + k] == bytes[start + 8 + k]);
    }
    if 8 + text.len() < data.len() {
        assert(data[8 + text.len() as int] == bytes[start + 8 + text.len()]);
    }
}

/// Where a whole profile decodes, it has one tag for each entry of its table, in their order, and
/// reading one of them by itself gives the same.
pub proof fn law_a_profile_holds_every_tag(bytes: Seq<u8>, i: int, strict: bool)
    requires
        profile::decoded_profile(bytes, strict) is Ok,
        0 <= i < header::number_at(bytes, 128),
    ensures
        ({
            let tags = profile::decoded_profile(bytes, strict)->Ok_0.tags;
            &&& tags.len() == header::number_at(bytes, 128)
            &&& tags[i].0.code == header::number_at(bytes, 132 + 12 * i)
            &&& selected_tag(bytes, tags[i].0, strict) == Ok::<Option<TagView>, IccError>(
                Some(tags[i].1),
            )
        }),
{
    let (_, entries) = profile::profile_index(bytes, strict)->Ok_0;
    let data_start = tags::table_end(entries.len()) as int;
    tags::law_the_table_lists_its_entries(bytes);
    lemma_tag_count(bytes, entries, strict, data_start);
    lemma_each_tag(bytes, entries, strict, data_start, i);
    law_a_tag_is_read_where_its_entry_says(bytes, i, strict);
}

/// Whether the entry with index `i` of the tag table leads to nothing that can be read: its data
/// lies outside the profile, in strict mode it begins in the header or the table, or it is no data
/// of a tag.
pub open spec fn is_faulty(bytes: Seq<u8>, i: int, strict: bool) -> bool {
    let start = header::number_at(bytes, 136 + 12 * i) as int;
    let end = start + header::number_at(bytes, 140 + 12 * i);
    ||| end > bytes.len()
    ||| strict && start < 132 + 12 * header::number_at(bytes, 128)
    ||| tags::tag_data(bytes.subrange(start, end)) is Err
}

proof fn lemma_fault(bytes: Seq<u8>, entries: Seq<TagEntry>, strict: bool, data_start: int)
    ensures
        profile::decoded_tags(bytes, entries, strict, data_start) is Err <==> exists|i: int|
            0 <= i < entries.len() && tags::entry_data(
                bytes,
                #[trigger] entries[i],
                strict,
                data_start,
            ) is Err,
    decreases entries.len(),
{
    if entries.len() > 0 {
        let before = entries.drop_last();
        lemma_fault(bytes, before, strict, data_start);
        if profile::decoded_tags(bytes, before, strict, data_start) is Err {
            let i = choose|i: int|
                0 <= i < before.len() && tags::entry_data(
                    bytes,
                    #[trigger] before[i],
                    strict,
                    data_start,
                ) is Err;
            assert(entries[i] == before[i]);
        }
        if exists|i: int|
            0 <= i < entries.len() && tags::entry_data(
                bytes,
                #[trigger] entries[i],
                strict,
                data_start,
            ) is Err {
            let i = choose|i: int|
                0 <= i < entries.len() && tags::entry_data(
                    bytes,
                    #[trigger] entries[i],
                    strict,
                    data_start,
                ) is Err;
            if i < before.len() {
                assert(before[i] == entries[i]);
            }
        }
        assert(entries.last() == entries[entries.len() - 1]);
    }
}

/// A profile is refused just where its header or its tag table is, or where an entry of the table
/// leads to nothing that can be read. Otherwise it has the facts of its header.
pub proof fn law_a_profile_is_refused_for_a_fault_only(bytes: Seq<u8>, strict: bool)
    ensures
        match profile::decoded_profile(bytes, strict) {
            Ok(read) => {
                &&& header::header_of(bytes, strict) == Ok::<header::ProfileHeader, IccError>(
                    read.header,
                )
                &&& tags::tag_table(bytes) is Ok
                &&& forall|i: int|
                    0 <= i < header::number_at(bytes, 128) ==> !(#[trigger] is_faulty(
                        bytes,
                        i,
                        strict,
                    ))
            },
            Err(_) => {
                ||| header::header_of(bytes, strict) is Err
                ||| tags::tag_table(bytes) is Err
                ||| exists|i: int|
                    0 <= i < header::number_at(bytes, 128) && #[trigger] is_faulty(
                        bytes,
                        i,
                        strict,
                    )
            },
        },
{
    if let Ok((_, entries)) = profile::profile_index(bytes, strict) {
        let data_start = tags::table_end(entries.len()) as int;
        lemma_fault(bytes, entries, strict, data_start);
        assert forall|i: int| 0 <= i < entries.len() implies is_faulty(bytes, i, strict)
            == #[trigger] tags::entry_data(bytes, entries[i], strict, data_start) is Err by {
            assert(entries[i] == tags::entry_at(bytes, i));
        }
        if profile::decoded_profile(bytes, strict) is Ok {
            assert forall|i: int| 0 <= i < header::number_at(bytes, 128) implies !(
            #[trigger] is_faulty(bytes, i, strict)) by {
                assert(tags::entry_data(bytes, entries[i], strict, data_start) is Ok);
            }
        } else {
            let i = choose|i: int|
                0 <= i < entries.len() && tags::entry_data(
                    bytes,
                    #[trigger] entries[i],
                    strict,
                    data_start,
                ) is Err;
            assert(is_faulty(bytes, i, strict));
        }
    }
}

} // verus!
