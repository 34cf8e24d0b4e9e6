//! A catalogue of licensed standard profiles.

use vstd::prelude::*;

use crate::icc::header::IccError;
use crate::icc::identity;
use crate::icc::identity::{IccProfileIdentity, ProfileId};
use crate::icc::md5;
use crate::text;
use crate::text::{same_text, to_lower_text};

verus! {

/// A profile of the catalogue.
#[derive(Debug, Clone, Copy, PartialEq, Eq, Hash, Structural)]
#[non_exhaustive]
pub enum StandardProfile {
    /// ICC sRGB 2014 v2 monitor profile.
    SrgbV2,
    /// Compact sGrey v2 monitor profile.
    SgreyV2,
    /// CGATS21 CRPC6 v4 CMYK output profile.
    Cgats21Crpc6,
    /// ISO Coated v2 ECI CMYK output profile.
    IsoCoatedV2Eci,
}

/// The encoded bytes of the profiles of the catalogue.
#[derive(Debug)]
pub struct ProfileAssets {
    /// The bytes of the sRGB profile.
    pub srgb_v2: Vec<u8>,
    /// The bytes of the sGrey profile.
    pub sgrey_v2: Vec<u8>,
    /// The bytes of the CGATS21 CRPC6 profile.
    pub cgats21_crpc6: Vec<u8>,
    /// The bytes of the ISO Coated v2 profile.
    pub iso_coated_v2_eci: Vec<u8>,
}

/// Whether two names are equal up to the case of their ASCII letters.
pub open spec fn same_name(a: Seq<char>, b: Seq<char>) -> bool {
    text::lower_text(a) == text::lower_text(b)
}

/// Whether two names are equal up to the case of their ASCII letters.
fn is_name(a: &str, b: &str) -> (r: bool)
    ensures
        r == same_name(a@, b@),
{
    same_text(to_lower_text(a).as_str(), to_lower_text(b).as_str())
}

/// The profile that a conventional name stands for, if it stands for one.
pub open spec fn resolved_name(name: Seq<char>) -> Option<StandardProfile> {
    if same_name(name, "sRGB IEC61966-2.1"@) || same_name(name, "sRGB"@) {
        Some(StandardProfile::SrgbV2)
    } else if same_name(name, "sGrey-v2-magic"@) || same_name(name, "sGrey"@) {
        Some(StandardProfile::SgreyV2)
    } else if same_name(name, "CGATS21_CRPC6"@) || same_name(name, "CGATS21 CRPC6"@) {
        Some(StandardProfile::Cgats21Crpc6)
    } else if same_name(name, "ISOcoated_v2_eci"@) || same_name(name, "ISO Coated v2 ECI"@)
        || same_name(name, "Coated FOGRA39 ICC v2"@) {
        Some(StandardProfile::IsoCoatedV2Eci)
    } else {
        None
    }
}

impl StandardProfile {
    /// Complete catalogue in stable declaration order.
    pub const ALL: [StandardProfile; 4] = [
        StandardProfile::SrgbV2,
        StandardProfile::SgreyV2,
        StandardProfile::Cgats21Crpc6,
        StandardProfile::IsoCoatedV2Eci,
    ];

    /// Resolves a conventional profile name to a catalogue entry.
    ///
    /// The accepted aliases are the names commonly stored in PDF output intents and
    /// colour-management configuration. Matching is ASCII case-insensitive.
    pub fn from_name(name: &str) -> (r: Option<StandardProfile>)
        ensures
            r == resolved_name(name@),
    {
        if is_name(name, "sRGB IEC61966-2.1") || is_name(name, "sRGB") {
            Some(StandardProfile::SrgbV2)
        } else if is_name(name, "sGrey-v2-magic") || is_name(name, "sGrey") {
            Some(StandardProfile::SgreyV2)
        } else if is_name(name, "CGATS21_CRPC6") || is_name(name, "CGATS21 CRPC6") {
            Some(StandardProfile::Cgats21Crpc6)
        } else if is_name(name, "ISOcoated_v2_eci") || is_name(name, "ISO Coated v2 ECI")
            || is_name(name, "Coated FOGRA39 ICC v2") {
            Some(StandardProfile::IsoCoatedV2Eci)
        } else {
            None
        }
    }

    /// The canonical name of the profile.
    pub open spec fn canonical_name(self) -> Seq<char> {
        match self {
            StandardProfile::SrgbV2 => "sRGB IEC61966-2.1"@,
            StandardProfile::SgreyV2 => "sGrey-v2-magic"@,
            StandardProfile::Cgats21Crpc6 => "CGATS21_CRPC6"@,
            StandardProfile::IsoCoatedV2Eci => "ISOcoated_v2_eci"@,
        }
    }

    /// Stable canonical profile name.
    pub fn name(self) -> (r: &'static str)
        ensures
            r@ == self.canonical_name(),
    {
        match self {
            StandardProfile::SrgbV2 => "sRGB IEC61966-2.1",
            StandardProfile::SgreyV2 => "sGrey-v2-magic",
            StandardProfile::Cgats21Crpc6 => "CGATS21_CRPC6",
            StandardProfile::IsoCoatedV2Eci => "ISOcoated_v2_eci",
        }
    }

    /// The encoded bytes of the profile among the assets.
    pub open spec fn encoded(self, assets: ProfileAssets) -> Seq<u8> {
        match self {
            StandardProfile::SrgbV2 => assets.srgb_v2@,
            StandardProfile::SgreyV2 => assets.sgrey_v2@,
            StandardProfile::Cgats21Crpc6 => assets.cgats21_crpc6@,
            StandardProfile::IsoCoatedV2Eci => assets.iso_coated_v2_eci@,
        }
    }

    /// Exact encoded profile bytes.
    pub fn bytes<'a>(self, assets: &'a ProfileAssets) -> (r: &'a [u8])
        ensures
            r@ == self.encoded(*assets),
    {
        match self {
            StandardProfile::SrgbV2 => assets.srgb_v2.as_slice(),
            StandardProfile::SgreyV2 => assets.sgrey_v2.as_slice(),
            StandardProfile::Cgats21Crpc6 => assets.cgats21_crpc6.as_slice(),
            StandardProfile::IsoCoatedV2Eci => assets.iso_coated_v2_eci.as_slice(),
        }
    }

    /// The MD5 of the pinned bytes of the profile, in hexadecimal digits.
    pub open spec fn pinned_checksum(self) -> Seq<char> {
        match self {
            StandardProfile::SrgbV2 => "3947129e0967089c736f91a2989d89d8"@,
            StandardProfile::SgreyV2 => "ef6221686b517e4665480639202dacd5"@,
            StandardProfile::Cgats21Crpc6 => "f788f997cde13840dad9365c9df5eb0f"@,
            StandardProfile::IsoCoatedV2Eci => "bda07efcacf5377e91edacb0454ea7e5"@,
        }
    }

    /// Whether the assets hold the pinned bytes of the profile, as far as their MD5 tells.
    pub fn is_pinned(self, assets: &ProfileAssets) -> (r: bool)
        ensures
            r == (identity::hexadecimal(md5::digest(self.encoded(*assets)))
                == self.pinned_checksum()),
    {
        let checksum = ProfileId::checksum(self.bytes(assets)).to_string();
        let pinned = match self {
            StandardProfile::SrgbV2 => "3947129e0967089c736f91a2989d89d8",
            StandardProfile::SgreyV2 => "ef6221686b517e4665480639202dacd5",
            StandardProfile::Cgats21Crpc6 => "f788f997cde13840dad9365c9df5eb0f",
            StandardProfile::IsoCoatedV2Eci => "bda07efcacf5377e91edacb0454ea7e5",
        };
        same_text(checksum.as_str(), pinned)
    }

    /// Parsed identity and header facts for this profile.
    ///
    /// An error comes of bytes that do not parse as a profile.
    pub fn identity(self, assets: &ProfileAssets) -> (r: Result<IccProfileIdentity, IccError>)
        ensures
            identity::identity_outcome(r) == identity::identity_of(self.encoded(*assets)),
    {
        IccProfileIdentity::from_bytes(self.bytes(assets))
    }
}

/// The canonical name of a profile resolves to that profile.
pub proof fn law_canonical_names_resolve(profile: StandardProfile)
    ensures
        resolved_name(profile.canonical_name()) == Some(profile),
{
    reveal_strlit("sRGB IEC61966-2.1");
    reveal_strlit("sRGB");
    reveal_strlit("sGrey-v2-magic");
    reveal_strlit("sGrey");
    reveal_strlit("CGATS21_CRPC6");
    reveal_strlit("CGATS21 CRPC6");
    reveal_strlit("ISOcoated_v2_eci");
    assert(text::lower_text("sRGB IEC61966-2.1"@).len() == 17);
    assert(text::lower_text("sRGB"@).len() == 4);
    assert(text::lower_text("sGrey-v2-magic"@).len() == 14);
    assert(text::lower_text("sGrey"@).len() == 5);
    assert(text::lower_text("CGATS21_CRPC6"@).len() == 13);
    assert(text::lower_text("CGATS21 CRPC6"@).len() == 13);
    assert(text::lower_text("ISOcoated_v2_eci"@).len() == 16);
}

/// Names that differ only in the case of ASCII letters resolve alike.
pub proof fn law_resolution_ignores_case(a: Seq<char>, b: Seq<char>)
    requires
        text::lower_text(a) == text::lower_text(b),
    ensures
        resolved_name(a) == resolved_name(b),
{
}

/// Every conventional name of a profile stands for it, in whatever case its letters are.
pub proof fn law_conventional_names_resolve(name: Seq<char>)
    ensures
        same_name(name, "sRGB IEC61966-2.1"@) ==> resolved_name(name) == Some(
            StandardProfile::SrgbV2,
        ),
        same_name(name, "sRGB"@) ==> resolved_name(name) == Some(StandardProfile::SrgbV2),
        same_name(name, "sGrey-v2-magic"@) ==> resolved_name(name) == Some(
            StandardProfile::SgreyV2,
        ),
        same_name(name, "sGrey"@) ==> resolved_name(name) == Some(StandardProfile::SgreyV2),
        same_name(name, "CGATS21_CRPC6"@) ==> resolved_name(name) == Some(
            StandardProfile::Cgats21Crpc6,
        ),
        same_name(name, "CGATS21 CRPC6"@) ==> resolved_name(name) == Some(
            StandardProfile::Cgats21Crpc6,
        ),
        same_name(name, "ISOcoated_v2_eci"@) ==> resolved_name(name) == Some(
            StandardProfile::IsoCoatedV2Eci,
        ),
        same_name(name, "ISO Coated v2 ECI"@) ==> resolved_name(name) == Some(
            StandardProfile::IsoCoatedV2Eci,
        ),
        same_name(name, "Coated FOGRA39 ICC v2"@) ==> resolved_name(name) == Some(
            StandardProfile::IsoCoatedV2Eci,
        ),
        resolved_name(name) is Some ==> same_name(name, "sRGB IEC61966-2.1"@) || same_name(
            name,
            "sRGB"@,
        ) || same_name(name, "sGrey-v2-magic"@) || same_name(name, "sGrey"@) || same_name(
            name,
            "CGATS21_CRPC6"@,
        ) || same_name(name, "CGATS21 CRPC6"@) || same_name(name, "ISOcoated_v2_eci"@)
            || same_name(name, "ISO Coated v2 ECI"@) || same_name(name, "Coated FOGRA39 ICC v2"@),
{
    reveal_strlit("sRGB IEC61966-2.1");
    reveal_strlit("sRGB");
    reveal_strlit("sGrey-v2-magic");
    reveal_strlit("sGrey");
    reveal_strlit("CGATS21_CRPC6");
    reveal_strlit("CGATS21 CRPC6");
    reveal_strlit("ISOcoated_v2_eci");
    reveal_strlit("ISO Coated v2 ECI");
    reveal_strlit("Coated FOGRA39 ICC v2");
    assert(text::lower_text("sRGB IEC61966-2.1"@).len() == 17);
    assert(text::lower_text("sRGB"@).len() == 4);
    assert(text::lower_text("sGrey-v2-magic"@).len() == 14);
    assert(text::lower_text("sGrey"@).len() == 5);
    assert(text::lower_text("CGATS21_CRPC6"@).len() == 13);
    assert(text::lower_text("CGATS21 CRPC6"@).len() == 13);
    assert(text::lower_text("ISOcoated_v2_eci"@).len() == 16);
    assert(text::lower_text("ISO Coated v2 ECI"@).len() == 17);
    assert(text::lower_text("Coated FOGRA39 ICC v2"@).len() == 21);
    assert(text::lower_text("ISO Coated v2 ECI"@)[0] == 'i');
    assert(text::lower_text("sRGB IEC61966-2.1"@)[0] == 's');
}

/// Each profile of the catalogue has bytes of its own among the assets, and is listed once.
pub proof fn law_the_catalogue_lists_every_profile(profile: StandardProfile, i: int, j: int)
    requires
        0 <= i < j < 4,
    ensures
        StandardProfile::ALL@.contains(profile),
        StandardProfile::ALL@.len() == 4,
        StandardProfile::ALL@[i] != StandardProfile::ALL@[j],
{
    let all = StandardProfile::ALL@;
    assert(all[0] == StandardProfile::SrgbV2);
    assert(all[1] == StandardProfile::SgreyV2);
    assert(all[2] == StandardProfile::Cgats21Crpc6);
    assert(all[3] == StandardProfile::IsoCoatedV2Eci);
}

/// Each profile has bytes and a checksum of its own: those that go by its name.
pub proof fn law_each_profile_has_its_own_bytes(assets: ProfileAssets, profile: StandardProfile)
    ensures
        same_name(profile.canonical_name(), "sRGB IEC61966-2.1"@) ==> profile.encoded(assets)
            == assets.srgb_v2@ && profile.pinned_checksum() == "3947129e0967089c736f91a2989d89d8"@,
        same_name(profile.canonical_name(), "sGrey-v2-magic"@) ==> profile.encoded(assets)
            == assets.sgrey_v2@ && profile.pinned_checksum() == "ef6221686b517e4665480639202dacd5"@,
        same_name(profile.canonical_name(), "CGATS21_CRPC6"@) ==> profile.encoded(assets)
            == assets.cgats21_crpc6@ && profile.pinned_checksum()
            == "f788f997cde13840dad9365c9df5eb0f"@,
        same_name(profile.canonical_name(), "ISOcoated_v2_eci"@) ==> profile.encoded(assets)
            == assets.iso_coated_v2_eci@ && profile.pinned_checksum()
            == "bda07efcacf5377e91edacb0454ea7e5"@,
        same_name(profile.canonical_name(), "sRGB IEC61966-2.1"@) || same_name(
            profile.canonical_name(),
            "sGrey-v2-magic"@,
        ) || same_name(profile.canonical_name(), "CGATS21_CRPC6"@) || same_name(
            profile.canonical_name(),
            "ISOcoated_v2_eci"@,
        ),
{
    law_canonical_names_resolve(profile);
    law_conventional_names_resolve(profile.canonical_name());
}

} // verus!
