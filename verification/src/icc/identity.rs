//! Typed profile identity.

use vstd::prelude::*;

use crate::icc::header;
use crate::icc::header::{
    ColorSpace, DeviceClass, IccError, ProfileHeader, ProfileVersion, Signature,
};
use crate::icc::md5;
use crate::icc::md5::md5;
use crate::icc::profile;
use crate::icc::profile::IccProfile;

verus! {

/// The identifier of a profile.
#[derive(Debug, Clone, Copy, PartialEq, Eq, Hash)]
pub struct ProfileId(pub [u8; 16]);

impl View for ProfileId {
    type V = Seq<u8>;

    open spec fn view(&self) -> Seq<u8> {
        self.0@
    }
}

/// Whether the header of a profile holds an identifier.
pub open spec fn has_embedded_id(bytes: Seq<u8>) -> bool {
    exists|i: int| 84 <= i < 100 && #[trigger] bytes[i] != 0
}

/// Whether the digest of a profile leaves out the byte at index `i`: a byte of the profile flags,
/// of the rendering intent or of the identifier.
pub open spec fn left_out(i: int) -> bool {
    44 <= i < 48 || 64 <= i < 68 || 84 <= i < 100
}

/// The bytes of a profile with those set to zero that its digest leaves out.
pub open spec fn canonical_bytes(bytes: Seq<u8>) -> Seq<u8> {
    Seq::new(
        bytes.len(),
        |i: int|
            if left_out(i) {
                0u8
            } else {
                bytes[i]
            },
    )
}

/// The identifier of a profile: the one in its header where there is one, and otherwise the digest
/// of its canonical bytes.
pub open spec fn canonical_id(bytes: Seq<u8>) -> Seq<u8> {
    if has_embedded_id(bytes) {
        bytes.subrange(84, 100)
    } else {
        md5::digest(canonical_bytes(bytes))
    }
}

/// The lower-case hexadecimal digit of a value below sixteen.
pub open spec fn hex_digit(value: u8) -> char {
    if value < 10 {
        ('0' as u8 + value) as char
    } else {
        ('a' as u8 + (value - 10)) as char
    }
}

/// Bytes in hexadecimal digits, two for each.
pub open spec fn hexadecimal(bytes: Seq<u8>) -> Seq<char>
    decreases bytes.len(),
{
    if bytes.len() == 0 {
        seq![]
    } else {
        hexadecimal(bytes.drop_last()).push(hex_digit(bytes.last() / 16)).push(
            hex_digit(bytes.last() % 16),
        )
    }
}

/// The lower-case hexadecimal digit of a value below sixteen.
fn digit(value: u8) -> (r: char)
    requires
        value < 16,
    ensures
        r == hex_digit(value),
{
    if value < 10 {
        (48 + value) as char
    } else {
        (97 + (value - 10)) as char
    }
}

impl ProfileId {
    /// The identifier of sixteen bytes.
    fn from_range(bytes: &[u8], start: usize) -> (r: ProfileId)
        requires
            start + 16 <= bytes.len(),
        ensures
            r@ == bytes@.subrange(start as int, start + 16),
    {
        let id = ProfileId(
            [
                bytes[start],
                bytes[start + 1],
                bytes[start + 2],
                bytes[start + 3],
                bytes[start + 4],
                bytes[start + 5],
                bytes[start + 6],
                bytes[start + 7],
                bytes[start + 8],
                bytes[start + 9],
                bytes[start + 10],
                bytes[start + 11],
                bytes[start + 12],
                bytes[start + 13],
                bytes[start + 14],
                bytes[start + 15],
            ],
        );
        assert(id@ =~= bytes@.subrange(start as int, start + 16));
        id
    }

    /// The MD5 digest of bytes.
    pub fn checksum(bytes: &[u8]) -> (r: ProfileId)
        ensures
            r@ == md5::digest(bytes@),
    {
        let digest = md5(bytes);
        assert(digest@.subrange(0, 16) =~= digest@);
        ProfileId::from_range(digest.as_slice(), 0)
    }

    /// The identifier of an encoded profile: the embedded one when present, and otherwise the
    /// digest of the profile without its flags, rendering intent and identifier.
    pub fn from_profile_bytes(bytes: &[u8]) -> (r: Result<ProfileId, IccError>)
        ensures
            match r {
                Ok(id) => bytes@.len() >= header::HEADER_SIZE && id@ == canonical_id(bytes@),
                Err(error) => bytes@.len() < header::HEADER_SIZE && error == IccError::Malformed(
                    "the profile is shorter than its header",
                ),
            },
    {
        let length: usize = bytes.len();
        if length < header::HEADER_SIZE {
            return Err(IccError::Malformed("the profile is shorter than its header"));
        }
        let mut i: usize = 84;
        while i < 100
            invariant
                84 <= i <= 100,
                length == bytes@.len(),
                length >= 128,
                forall|j: int| 84 <= j < i ==> bytes@[j] == 0,
            decreases 100 - i,
        {
            if bytes[i] != 0 {
                return Ok(ProfileId::from_range(bytes, 84));
            }
            i = i + 1;
        }
        let mut canonical: Vec<u8> = Vec::new();
        let mut k: usize = 0;
        while k < length
            invariant
                k <= length == bytes@.len(),
                canonical@ == canonical_bytes(bytes@).take(k as int),
            decreases length - k,
        {
            if (44 <= k && k < 48) || (64 <= k && k < 68) || (84 <= k && k < 100) {
                canonical.push(0);
            } else {
                canonical.push(bytes[k]);
            }
            assert(canonical@ =~= canonical_bytes(bytes@).take(k + 1));
            k = k + 1;
        }
        assert(canonical@ =~= canonical_bytes(bytes@));
        Ok(ProfileId::checksum(canonical.as_slice()))
    }

    /// The identifier in lower-case hexadecimal digits.
    pub fn to_string(&self) -> (r: String)
        ensures
            r@ == hexadecimal(self@),
    {
        let mut out = String::new();
        let mut i: usize = 0;
        while i < 16
            invariant
                i <= 16,
                out@ == hexadecimal(self@.take(i as int)),
            decreases 16 - i,
        {
            out.push(digit(self.0[i] / 16));
            out.push(digit(self.0[i] % 16));
            assert(self@.take(i + 1).drop_last() =~= self@.take(i as int));
            i = i + 1;
        }
        assert(self@.take(16) =~= self@);
        out
    }
}

/// Stable identity and header facts of one encoded profile.
#[derive(Debug, Clone, Copy, PartialEq, Eq, Hash)]
pub struct IccProfileIdentity {
    /// Embedded profile identifier when present, otherwise the canonical digest.
    pub canonical_id: ProfileId,
    /// MD5 of the encoded profile bytes without header canonicalisation.
    pub checksum: ProfileId,
    /// Device class.
    pub device_class: DeviceClass,
    /// Data colour space.
    pub data_color_space: ColorSpace,
    /// Profile connection space.
    pub pcs: ColorSpace,
    /// Encoded format version.
    pub version: ProfileVersion,
}

/// What an identity says.
pub struct IdentityView {
    /// The canonical identifier.
    pub canonical_id: Seq<u8>,
    /// The MD5 of the encoded bytes.
    pub checksum: Seq<u8>,
    /// The header facts.
    pub header: ProfileHeader,
}

impl View for IccProfileIdentity {
    type V = IdentityView;

    open spec fn view(&self) -> IdentityView {
        IdentityView {
            canonical_id: self.canonical_id@,
            checksum: self.checksum@,
            header: ProfileHeader {
                version: self.version,
                device_class: self.device_class,
                data_color_space: self.data_color_space,
                pcs: self.pcs,
            },
        }
    }
}

/// The identity of an encoded profile, or what is wrong with it.
pub open spec fn identity_of(bytes: Seq<u8>) -> Result<IdentityView, IccError> {
    match profile::decoded_profile(bytes, false) {
        Err(error) => Err(error),
        Ok(profile) => Ok(
            IdentityView {
                canonical_id: canonical_id(bytes),
                checksum: md5::digest(bytes),
                header: profile.header,
            },
        ),
    }
}

/// The identity, seen as what it says.
pub open spec fn identity_outcome(result: Result<IccProfileIdentity, IccError>) -> Result<
    IdentityView,
    IccError,
> {
    match result {
        Ok(identity) => Ok(identity@),
        Err(error) => Err(error),
    }
}

impl IccProfileIdentity {
    /// Parses an encoded profile and projects its stable identity facts.
    pub fn from_bytes(bytes: &[u8]) -> (r: Result<IccProfileIdentity, IccError>)
        ensures
            identity_outcome(r) == identity_of(bytes@),
    {
        let profile = match IccProfile::parse(bytes) {
            Ok(profile) => profile,
            Err(error) => return Err(error),
        };
        proof {
            reveal(header::header_of);
        }
        let canonical_id = match ProfileId::from_profile_bytes(bytes) {
            Ok(id) => id,
            Err(error) => return Err(error),
        };
        Ok(
            IccProfileIdentity {
                canonical_id,
                checksum: ProfileId::checksum(bytes),
                device_class: profile.header.device_class,
                data_color_space: profile.header.data_color_space,
                pcs: profile.header.pcs,
                version: profile.header.version,
            },
        )
    }

    /// Number of device components represented by the profile.
    pub fn component_count(self) -> (r: u8)
        ensures
            r == self.data_color_space.channels(),
    {
        self.data_color_space.channel_count()
    }

    /// Four-byte device-class signature.
    pub fn device_class_signature(self) -> (r: Signature)
        ensures
            r.code == self.device_class.code(),
    {
        self.device_class.signature()
    }

    /// Four-byte data-colour-space signature.
    pub fn color_space_signature(self) -> (r: Signature)
        ensures
            r.code == self.data_color_space.code(),
    {
        self.data_color_space.signature()
    }
}

/// Without an embedded identifier, the canonical identifier does not depend on the flags or on the
/// rendering intent of the profile.
pub proof fn law_canonical_id_ignores_flags_and_intent(a: Seq<u8>, b: Seq<u8>)
    requires
        a.len() == b.len(),
        forall|i: int| 0 <= i < a.len() && !left_out(i) ==> a[i] == b[i],
        !has_embedded_id(a),
        !has_embedded_id(b),
    ensures
        canonical_id(a) == canonical_id(b),
{
    assert(canonical_bytes(a) =~= canonical_bytes(b));
}

/// The signatures in the identity of a profile are those that its header encodes.
pub proof fn law_identity_signatures_come_from_the_header(bytes: Seq<u8>)
    ensures
        identity_of(bytes) matches Ok(identity) ==> {
            &&& identity.header.device_class.code() == header::number_at(bytes, 12)
            &&& identity.header.data_color_space.code() == header::number_at(bytes, 16)
            &&& identity.header.pcs.code() == header::number_at(bytes, 20)
        },
{
    reveal(header::header_of);
    if identity_of(bytes) is Ok {
        header::lemma_header_exists(bytes, false);
    }
}

/// The checksum in the identity of a profile is the digest of all of its bytes, with nothing left
/// out and nothing changed; and there is an identity just where the whole profile decodes.
pub proof fn law_the_checksum_takes_in_every_byte(bytes: Seq<u8>)
    ensures
        identity_of(bytes) is Ok <==> profile::decoded_profile(bytes, false) is Ok,
        identity_of(bytes) matches Ok(identity) ==> identity.checksum == md5::digest(bytes)
            && identity.header == profile::decoded_profile(bytes, false)->Ok_0.header,
{
}

/// The canonical identifier of a profile is the sixteen bytes that its header holds for it, where
/// one of them is set. Where none is, it is the digest of the bytes that the profile has once its
/// flags and its rendering intent are cleared.
pub proof fn law_the_canonical_id_is_embedded_or_digested(bytes: Seq<u8>, cleared: Seq<u8>)
    requires
        bytes.len() >= 128,
        cleared.len() == bytes.len(),
        forall|i: int|
            0 <= i < bytes.len() ==> #[trigger] cleared[i] == if 44 <= i < 48 || 64 <= i < 68 {
                0
            } else {
                bytes[i]
            },
    ensures
        identity_of(bytes) matches Ok(identity) ==> identity.canonical_id == canonical_id(bytes),
        canonical_id(bytes) == if exists|i: int| 84 <= i < 100 && #[trigger] bytes[i] != 0 {
            bytes.subrange(84, 100)
        } else {
            md5::digest(cleared)
        },
{
    if !has_embedded_id(bytes) {
        assert(canonical_bytes(bytes) =~= cleared) by {
            assert forall|i: int| 0 <= i < bytes.len() implies canonical_bytes(bytes)[i]
                == #[trigger] cleared[i] by {}
        }
    }
}

/// The value of a lower-case hexadecimal digit.
pub open spec fn digit_value(digit: char) -> int {
    if '0' <= digit <= '9' {
        digit as int - '0' as int
    } else if 'a' <= digit <= 'f' {
        digit as int - 'a' as int + 10
    } else {
        -1
    }
}

/// Hexadecimal digits give back the bytes that they were written for, two for each, the higher one
/// first.
pub proof fn law_hexadecimal_digits_give_the_bytes_back(bytes: Seq<u8>)
    ensures
        hexadecimal(bytes).len() == 2 * bytes.len(),
        forall|i: int|
            0 <= i < bytes.len() ==> {
                let high = digit_value(hexadecimal(bytes)[2 * i]);
                let low = digit_value(hexadecimal(bytes)[2 * i + 1]);
                16 * high + low == #[trigger] bytes[i] && 0 <= high < 16 && 0 <= low < 16
            },
    decreases bytes.len(),
{
    if bytes.len() > 0 {
        let before = bytes.drop_last();
        law_hexadecimal_digits_give_the_bytes_back(before);
        assert forall|i: int| 0 <= i < bytes.len() implies {
            let high = digit_value(hexadecimal(bytes)[2 * i]);
            let low = digit_value(hexadecimal(bytes)[2 * i + 1]);
            16 * high + low == #[trigger] bytes[i] && 0 <= high < 16 && 0 <= low < 16
        } by {
            if i < bytes.len() - 1 {
                assert(before[i] == bytes[i]);
                assert(hexadecimal(bytes)[2 * i] == hexadecimal(before)[2 * i]);
                assert(hexadecimal(bytes)[2 * i + 1] == hexadecimal(before)[2 * i + 1]);
            } else {
                assert(hexadecimal(bytes)[2 * i] == hex_digit(bytes[i] / 16));
                assert(hexadecimal(bytes)[2 * i + 1] == hex_digit(bytes[i] % 16));
            }
        }
    }
}

} // verus!
