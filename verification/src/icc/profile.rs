//! Whole profiles.

use vstd::prelude::*;

use crate::icc::header;
use crate::icc::header::{read_header, IccError, ProfileHeader, Signature};
use crate::icc::tags;
use crate::icc::tags::{decode_entry, read_table, tag_table_end, TagData, TagEntry, TagView};

verus! {

/// A tag of a profile.
#[derive(Debug, PartialEq, Eq)]
pub struct ProfileTag {
    /// Which tag it is.
    pub signature: Signature,
    /// What it holds.
    pub data: TagData,
}

impl View for ProfileTag {
    type V = (Signature, TagView);

    open spec fn view(&self) -> (Signature, TagView) {
        (self.signature, self.data@)
    }
}

/// A decoded ICC profile.
#[derive(Debug, PartialEq, Eq)]
pub struct IccProfile {
    /// The header facts.
    pub header: ProfileHeader,
    /// The tags in the order of the tag table.
    pub tags: Vec<ProfileTag>,
}

/// What a profile says.
#[verifier::ext_equal]
pub struct ProfileView {
    /// The header facts.
    pub header: ProfileHeader,
    /// The tags in the order of the tag table.
    pub tags: Seq<(Signature, TagView)>,
}

/// The tags, seen as what they say.
pub open spec fn tags_view(tags: Seq<ProfileTag>) -> Seq<(Signature, TagView)> {
    tags.map_values(|tag: ProfileTag| tag@)
}

impl View for IccProfile {
    type V = ProfileView;

    open spec fn view(&self) -> ProfileView {
        ProfileView { header: self.header, tags: tags_view(self.tags@) }
    }
}

/// The header and the tag table of a profile, or what is wrong with them.
pub open spec fn profile_index(bytes: Seq<u8>, strict: bool) -> Result<
    (ProfileHeader, Seq<TagEntry>),
    IccError,
> {
    match header::header_of(bytes, strict) {
        Err(error) => Err(error),
        Ok(header) => match tags::tag_table(bytes) {
            Err(error) => Err(error),
            Ok(entries) => Ok((header, entries)),
        },
    }
}

/// The tags of the given entries, or what is wrong with the first one that does not decode.
pub open spec fn decoded_tags(
    bytes: Seq<u8>,
    entries: Seq<TagEntry>,
    strict: bool,
    data_start: int,
) -> Result<Seq<(Signature, TagView)>, IccError>
    decreases entries.len(),
{
    if entries.len() == 0 {
        Ok(seq![])
    } else {
        match decoded_tags(bytes, entries.drop_last(), strict, data_start) {
            Err(error) => Err(error),
            Ok(before) => match tags::entry_data(bytes, entries.last(), strict, data_start) {
                Err(error) => Err(error),
                Ok(data) => Ok(before.push((entries.last().signature, data))),
            },
        }
    }
}

/// The profile that bytes encode, or what is wrong with them.
pub open spec fn decoded_profile(bytes: Seq<u8>, strict: bool) -> Result<ProfileView, IccError> {
    match profile_index(bytes, strict) {
        Err(error) => Err(error),
        Ok((header, entries)) => match decoded_tags(
            bytes,
            entries,
            strict,
            tags::table_end(entries.len()) as int,
        ) {
            Err(error) => Err(error),
            Ok(decoded) => Ok(ProfileView { header, tags: decoded }),
        },
    }
}

/// The profile, seen as what it says.
pub open spec fn profile_outcome(result: Result<IccProfile, IccError>) -> Result<
    ProfileView,
    IccError,
> {
    match result {
        Ok(profile) => Ok(profile@),
        Err(error) => Err(error),
    }
}

/// The index, seen as what it says.
pub open spec fn index_outcome(
    result: Result<(ProfileHeader, Vec<TagEntry>), IccError>,
) -> Result<(ProfileHeader, Seq<TagEntry>), IccError> {
    match result {
        Ok((header, entries)) => Ok((header, entries@)),
        Err(error) => Err(error),
    }
}

/// Reads and checks the header and the tag table of a profile.
pub fn read_profile_index(bytes: &[u8], strict: bool) -> (r: Result<
    (ProfileHeader, Vec<TagEntry>),
    IccError,
>)
    ensures
        index_outcome(r) == profile_index(bytes@, strict),
        r matches Ok((_, entries)) ==> tags::table_end(entries@.len()) <= usize::MAX,
{
    let header = match read_header(bytes, strict) {
        Ok(header) => header,
        Err(error) => return Err(error),
    };
    match read_table(bytes) {
        Ok(entries) => Ok((header, entries)),
        Err(error) => Err(error),
    }
}

/// If the tags of the first entries do not decode, those of all the entries do not either.
proof fn lemma_fault_stays(
    bytes: Seq<u8>,
    entries: Seq<TagEntry>,
    strict: bool,
    data_start: int,
    count: int,
)
    requires
        0 <= count <= entries.len(),
        decoded_tags(bytes, entries.take(count), strict, data_start) is Err,
    ensures
        decoded_tags(bytes, entries, strict, data_start) == decoded_tags(
            bytes,
            entries.take(count),
            strict,
            data_start,
        ),
    decreases entries.len() - count,
{
    if count == entries.len() {
        assert(entries.take(count) =~= entries);
    } else {
        let next = entries.take(count + 1);
        assert(next.drop_last() =~= entries.take(count));
        lemma_fault_stays(bytes, entries, strict, data_start, count + 1);
    }
}

impl IccProfile {
    /// Decodes a profile, tolerating what merely does not conform.
    pub fn parse(bytes: &[u8]) -> (r: Result<IccProfile, IccError>)
        ensures
            profile_outcome(r) == decoded_profile(bytes@, false),
    {
        IccProfile::parse_with(bytes, false)
    }

    /// Decodes a profile, in strict mode rejecting also what merely does not conform.
    pub fn parse_with(bytes: &[u8], strict: bool) -> (r: Result<IccProfile, IccError>)
        ensures
            profile_outcome(r) == decoded_profile(bytes@, strict),
    {
        let (header, entries) = match read_profile_index(bytes, strict) {
            Ok(index) => index,
            Err(error) => return Err(error),
        };
        let data_start: usize = tag_table_end(entries.len());
        let count: usize = entries.len();
        let mut decoded: Vec<ProfileTag> = Vec::new();
        let mut i: usize = 0;
        assert(entries@.take(0) =~= seq![]);
        assert(tags_view(decoded@) =~= seq![]);
        while i < count
            invariant
                i <= count == entries@.len(),
                data_start == tags::table_end(count as nat),
                profile_index(bytes@, strict) == Ok::<(ProfileHeader, Seq<TagEntry>), IccError>(
                    (header, entries@),
                ),
                decoded_tags(bytes@, entries@.take(i as int), strict, data_start as int) == Ok::<
                    Seq<(Signature, TagView)>,
                    IccError,
                >(tags_view(decoded@)),
            decreases count - i,
        {
            let entry = entries[i];
            let ghost next = entries@.take(i + 1);
            assert(next.drop_last() =~= entries@.take(i as int));
            assert(next.last() == entry);
            match decode_entry(bytes, entry, strict, data_start) {
                Ok(data) => {
                    let ghost before = tags_view(decoded@);
                    decoded.push(ProfileTag { signature: entry.signature, data });
                    assert(tags_view(decoded@) =~= before.push((entry.signature, data@)));
                },
                Err(error) => {
                    proof {
                        lemma_fault_stays(bytes@, entries@, strict, data_start as int, i + 1);
                    }
                    return Err(error);
                },
            }
            i = i + 1;
        }
        assert(entries@.take(count as int) =~= entries@);
        Ok(IccProfile { header, tags: decoded })
    }
}

/// Where all the tags of the entries decode in strict mode, they decode to the same data without.
proof fn lemma_strict_tags(bytes: Seq<u8>, entries: Seq<TagEntry>, data_start: int)
    requires
        decoded_tags(bytes, entries, true, data_start) is Ok,
    ensures
        decoded_tags(bytes, entries, false, data_start) == decoded_tags(
            bytes,
            entries,
            true,
            data_start,
        ),
    decreases entries.len(),
{
    if entries.len() > 0 {
        lemma_strict_tags(bytes, entries.drop_last(), data_start);
    }
}

/// What strict mode accepts, lenient mode accepts too, and decodes to the same profile.
pub proof fn law_strict_accepts_no_more(bytes: Seq<u8>)
    ensures
        decoded_profile(bytes, true) is Ok ==> decoded_profile(bytes, false) == decoded_profile(
            bytes,
            true,
        ),
{
    reveal(header::header_of);
    if decoded_profile(bytes, true) is Ok {
        let entries = tags::tag_table(bytes)->Ok_0;
        lemma_strict_tags(bytes, entries, tags::table_end(entries.len()) as int);
    }
}

} // verus!
