//! The profile header: its 128 bytes and the types of its fields.

use vstd::prelude::*;

verus! {

/// Why a profile was rejected.
#[derive(Debug, Clone, Copy, PartialEq, Eq)]
#[non_exhaustive]
pub enum IccError {
    /// The bytes are not a well-formed, or in strict mode not a conformant, profile.
    Malformed(&'static str),
}

/// The size of the header.
pub const HEADER_SIZE: usize = 128;

/// The big-endian number in the four bytes from index `at` on.
pub open spec fn number_at(bytes: Seq<u8>, at: int) -> u32 {
    (bytes[at] * 0x1000000 + bytes[at + 1] * 0x10000 + bytes[at + 2] * 0x100 + bytes[at
        + 3]) as u32
}

/// Reads the big-endian number in the four bytes from index `at` on.
pub fn read_number(bytes: &[u8], at: usize) -> (r: u32)
    requires
        at + 4 <= bytes.len(),
    ensures
        r == number_at(bytes@, at as int),
{
    (bytes[at] as u32) * 0x1000000 + (bytes[at + 1] as u32) * 0x10000 + (bytes[at + 2] as u32)
        * 0x100 + (bytes[at + 3] as u32)
}

/// A four-byte ICC signature, held as the big-endian number of its bytes.
#[derive(Debug, Clone, Copy, PartialEq, Eq, Hash, Structural)]
pub struct Signature {
    /// The number.
    pub code: u32,
}

impl Signature {
    /// The signature of four bytes.
    pub open spec fn of(bytes: Seq<u8>) -> Signature {
        Signature { code: number_at(bytes, 0) }
    }

    /// The signature of four bytes.
    pub fn new(bytes: [u8; 4]) -> (r: Signature)
        ensures
            r == Signature::of(bytes@),
    {
        Signature {
            code: (bytes[0] as u32) * 0x1000000 + (bytes[1] as u32) * 0x10000 + (bytes[2] as u32)
                * 0x100 + (bytes[3] as u32),
        }
    }

    /// The four bytes of the signature.
    pub fn to_bytes(self) -> (r: [u8; 4])
        ensures
            Signature::of(r@) == self,
    {
        [
            (self.code / 0x1000000) as u8,
            (self.code / 0x10000 % 0x100) as u8,
            (self.code / 0x100 % 0x100) as u8,
            (self.code % 0x100) as u8,
        ]
    }
}

/// The class of a profile.
#[derive(Debug, Clone, Copy, PartialEq, Eq, Hash, Structural)]
#[non_exhaustive]
pub enum DeviceClass {
    /// An input device, such as a scanner.
    Input,
    /// A display device, such as a monitor.
    Display,
    /// An output device, such as a printer.
    Output,
    /// A link between two devices.
    DeviceLink,
    /// A conversion between colour spaces.
    ColorSpace,
    /// An abstract colour transformation.
    Abstract,
    /// A named colour list.
    NamedColor,
}

impl DeviceClass {
    /// The code of the class.
    pub open spec fn code(self) -> u32 {
        match self {
            DeviceClass::Input => 0x73636e72,
            DeviceClass::Display => 0x6d6e7472,
            DeviceClass::Output => 0x70727472,
            DeviceClass::DeviceLink => 0x6c696e6b,
            DeviceClass::ColorSpace => 0x73706163,
            DeviceClass::Abstract => 0x61627374,
            DeviceClass::NamedColor => 0x6e6d636c,
        }
    }

    /// The signature of the class.
    pub fn signature(self) -> (r: Signature)
        ensures
            r.code == self.code(),
    {
        let code: u32 = match self {
            DeviceClass::Input => 0x73636e72,
            DeviceClass::Display => 0x6d6e7472,
            DeviceClass::Output => 0x70727472,
            DeviceClass::DeviceLink => 0x6c696e6b,
            DeviceClass::ColorSpace => 0x73706163,
            DeviceClass::Abstract => 0x61627374,
            DeviceClass::NamedColor => 0x6e6d636c,
        };
        Signature { code }
    }

    /// The class with the given signature, if there is one.
    pub fn from_signature(signature: Signature) -> (r: Option<DeviceClass>)
        ensures
            match r {
                Some(class) => class.code() == signature.code,
                None => forall|class: DeviceClass| (#[trigger] class.code()) != signature.code,
            },
    {
        if signature.code == 0x73636e72 {
            Some(DeviceClass::Input)
        } else if signature.code == 0x6d6e7472 {
            Some(DeviceClass::Display)
        } else if signature.code == 0x70727472 {
            Some(DeviceClass::Output)
        } else if signature.code == 0x6c696e6b {
            Some(DeviceClass::DeviceLink)
        } else if signature.code == 0x73706163 {
            Some(DeviceClass::ColorSpace)
        } else if signature.code == 0x61627374 {
            Some(DeviceClass::Abstract)
        } else if signature.code == 0x6e6d636c {
            Some(DeviceClass::NamedColor)
        } else {
            None
        }
    }
}

/// A colour space.
#[derive(Debug, Clone, Copy, PartialEq, Eq, Hash, Structural)]
#[non_exhaustive]
pub enum ColorSpace {
    /// CIE XYZ.
    Xyz,
    /// CIE Lab.
    Lab,
    /// CIE Luv.
    Luv,
    /// YCbCr.
    YCbCr,
    /// CIE Yxy.
    Yxy,
    /// RGB.
    Rgb,
    /// Grey.
    Gray,
    /// HSV.
    Hsv,
    /// HLS.
    Hls,
    /// CMYK.
    Cmyk,
    /// CMY.
    Cmy,
    /// Two generic channels.
    Color2,
    /// Three generic channels.
    Color3,
    /// Four generic channels.
    Color4,
    /// Five generic channels.
    Color5,
    /// Six generic channels.
    Color6,
    /// Seven generic channels.
    Color7,
    /// Eight generic channels.
    Color8,
    /// Nine generic channels.
    Color9,
    /// Ten generic channels.
    Color10,
    /// Eleven generic channels.
    Color11,
    /// Twelve generic channels.
    Color12,
    /// Thirteen generic channels.
    Color13,
    /// Fourteen generic channels.
    Color14,
    /// Fifteen generic channels.
    Color15,
}

impl ColorSpace {
    /// The code of the colour space.
    pub open spec fn code(self) -> u32 {
        match self {
            ColorSpace::Xyz => 0x58595a20,
            ColorSpace::Lab => 0x4c616220,
            ColorSpace::Luv => 0x4c757620,
            ColorSpace::YCbCr => 0x59436272,
            ColorSpace::Yxy => 0x59787920,
            ColorSpace::Rgb => 0x52474220,
            ColorSpace::Gray => 0x47524159,
            ColorSpace::Hsv => 0x48535620,
            ColorSpace::Hls => 0x484c5320,
            ColorSpace::Cmyk => 0x434d594b,
            ColorSpace::Cmy => 0x434d5920,
            ColorSpace::Color2 => 0x32434c52,
            ColorSpace::Color3 => 0x33434c52,
            ColorSpace::Color4 => 0x34434c52,
            ColorSpace::Color5 => 0x35434c52,
            ColorSpace::Color6 => 0x36434c52,
            ColorSpace::Color7 => 0x37434c52,
            ColorSpace::Color8 => 0x38434c52,
            ColorSpace::Color9 => 0x39434c52,
            ColorSpace::Color10 => 0x41434c52,
            ColorSpace::Color11 => 0x42434c52,
            ColorSpace::Color12 => 0x43434c52,
            ColorSpace::Color13 => 0x44434c52,
            ColorSpace::Color14 => 0x45434c52,
            ColorSpace::Color15 => 0x46434c52,
        }
    }

    /// The number of channels of the colour space.
    pub open spec fn channels(self) -> u8 {
        match self {
            ColorSpace::Gray => 1,
            ColorSpace::Color2 => 2,
            ColorSpace::Cmyk | ColorSpace::Color4 => 4,
            ColorSpace::Color5 => 5,
            ColorSpace::Color6 => 6,
            ColorSpace::Color7 => 7,
            ColorSpace::Color8 => 8,
            ColorSpace::Color9 => 9,
            ColorSpace::Color10 => 10,
            ColorSpace::Color11 => 11,
            ColorSpace::Color12 => 12,
            ColorSpace::Color13 => 13,
            ColorSpace::Color14 => 14,
            ColorSpace::Color15 => 15,
            _ => 3,
        }
    }

    /// The number of channels of the colour space.
    pub fn channel_count(self) -> (r: u8)
        ensures
            r == self.channels(),
    {
        match self {
            ColorSpace::Gray => 1,
            ColorSpace::Color2 => 2,
            ColorSpace::Cmyk | ColorSpace::Color4 => 4,
            ColorSpace::Color5 => 5,
            ColorSpace::Color6 => 6,
            ColorSpace::Color7 => 7,
            ColorSpace::Color8 => 8,
            ColorSpace::Color9 => 9,
            ColorSpace::Color10 => 10,
            ColorSpace::Color11 => 11,
            ColorSpace::Color12 => 12,
            ColorSpace::Color13 => 13,
            ColorSpace::Color14 => 14,
            ColorSpace::Color15 => 15,
            _ => 3,
        }
    }

    /// The signature of the colour space.
    pub fn signature(self) -> (r: Signature)
        ensures
            r.code == self.code(),
    {
        let code: u32 = match self {
            ColorSpace::Xyz => 0x58595a20,
            ColorSpace::Lab => 0x4c616220,
            ColorSpace::Luv => 0x4c757620,
            ColorSpace::YCbCr => 0x59436272,
            ColorSpace::Yxy => 0x59787920,
            ColorSpace::Rgb => 0x52474220,
            ColorSpace::Gray => 0x47524159,
            ColorSpace::Hsv => 0x48535620,
            ColorSpace::Hls => 0x484c5320,
            ColorSpace::Cmyk => 0x434d594b,
            ColorSpace::Cmy => 0x434d5920,
            ColorSpace::Color2 => 0x32434c52,
            ColorSpace::Color3 => 0x33434c52,
            ColorSpace::Color4 => 0x34434c52,
            ColorSpace::Color5 => 0x35434c52,
            ColorSpace::Color6 => 0x36434c52,
            ColorSpace::Color7 => 0x37434c52,
            ColorSpace::Color8 => 0x38434c52,
            ColorSpace::Color9 => 0x39434c52,
            ColorSpace::Color10 => 0x41434c52,
            ColorSpace::Color11 => 0x42434c52,
            ColorSpace::Color12 => 0x43434c52,
            ColorSpace::Color13 => 0x44434c52,
            ColorSpace::Color14 => 0x45434c52,
            ColorSpace::Color15 => 0x46434c52,
        };
        Signature { code }
    }

    /// The colour space with the given signature, if there is one.
    pub fn from_signature(signature: Signature) -> (r: Option<ColorSpace>)
        ensures
            match r {
                Some(space) => space.code() == signature.code,
                None => forall|space: ColorSpace| (#[trigger] space.code()) != signature.code,
            },
    {
        let code: u32 = signature.code;
        if code == 0x58595a20 {
            Some(ColorSpace::Xyz)
        } else if code == 0x4c616220 {
            Some(ColorSpace::Lab)
        } else if code == 0x4c757620 {
            Some(ColorSpace::Luv)
        } else if code == 0x59436272 {
            Some(ColorSpace::YCbCr)
        } else if code == 0x59787920 {
            Some(ColorSpace::Yxy)
        } else if code == 0x52474220 {
            Some(ColorSpace::Rgb)
        } else if code == 0x47524159 {
            Some(ColorSpace::Gray)
        } else if code == 0x48535620 {
            Some(ColorSpace::Hsv)
        } else if code == 0x484c5320 {
            Some(ColorSpace::Hls)
        } else if code == 0x434d594b {
            Some(ColorSpace::Cmyk)
        } else if code == 0x434d5920 {
            Some(ColorSpace::Cmy)
        } else if code == 0x32434c52 {
            Some(ColorSpace::Color2)
        } else if code == 0x33434c52 {
            Some(ColorSpace::Color3)
        } else if code == 0x34434c52 {
            Some(ColorSpace::Color4)
        } else if code == 0x35434c52 {
            Some(ColorSpace::Color5)
        } else if code == 0x36434c52 {
            Some(ColorSpace::Color6)
        } else if code == 0x37434c52 {
            Some(ColorSpace::Color7)
        } else if code == 0x38434c52 {
            Some(ColorSpace::Color8)
        } else if code == 0x39434c52 {
            Some(ColorSpace::Color9)
        } else if code == 0x41434c52 {
            Some(ColorSpace::Color10)
        } else if code == 0x42434c52 {
            Some(ColorSpace::Color11)
        } else if code == 0x43434c52 {
            Some(ColorSpace::Color12)
        } else if code == 0x44434c52 {
            Some(ColorSpace::Color13)
        } else if code == 0x45434c52 {
            Some(ColorSpace::Color14)
        } else if code == 0x46434c52 {
            Some(ColorSpace::Color15)
        } else {
            None
        }
    }
}

/// The version of the profile format that a profile follows.
#[derive(Debug, Clone, Copy, PartialEq, Eq, Hash, Structural)]
pub struct ProfileVersion {
    /// The major version.
    pub major: u8,
    /// The minor revision.
    pub minor: u8,
    /// The bug-fix revision.
    pub patch: u8,
}

/// The header facts of a profile.
#[derive(Debug, Clone, Copy, PartialEq, Eq, Hash, Structural)]
pub struct ProfileHeader {
    /// The encoded format version.
    pub version: ProfileVersion,
    /// The device class.
    pub device_class: DeviceClass,
    /// The colour space of the device data.
    pub data_color_space: ColorSpace,
    /// The profile connection space.
    pub pcs: ColorSpace,
}

impl ProfileHeader {
    /// Whether these are the facts that the first bytes of a profile encode.
    pub open spec fn encoded_by(self, bytes: Seq<u8>) -> bool {
        &&& self.version.major == bytes[8]
        &&& self.version.minor == bytes[9] / 16
        &&& self.version.patch == bytes[9] % 16
        &&& self.device_class.code() == number_at(bytes, 12)
        &&& self.data_color_space.code() == number_at(bytes, 16)
        &&& self.pcs.code() == number_at(bytes, 20)
    }
}

/// Whether a code stands for a device class.
pub open spec fn names_class(code: u32) -> bool {
    exists|class: DeviceClass| (#[trigger] class.code()) == code
}

/// Whether a code stands for a colour space.
pub open spec fn names_space(code: u32) -> bool {
    exists|space: ColorSpace| (#[trigger] space.code()) == code
}

/// Whether the reserved bytes at the end of the header are all zero.
pub open spec fn reserved_clear(bytes: Seq<u8>) -> bool {
    forall|i: int| 100 <= i < 128 ==> bytes[i] == 0
}

/// What is wrong with the header of a profile, if anything is.
pub open spec fn header_fault(bytes: Seq<u8>, strict: bool) -> Option<IccError> {
    if bytes.len() < HEADER_SIZE {
        Some(IccError::Malformed("the profile is shorter than its header"))
    } else if number_at(bytes, 36) != 0x61637370 {
        Some(IccError::Malformed("the profile file signature is missing"))
    } else if !names_class(number_at(bytes, 12)) {
        Some(IccError::Malformed("unknown device class"))
    } else if !names_space(number_at(bytes, 16)) {
        Some(IccError::Malformed("unknown data colour space"))
    } else if !names_space(number_at(bytes, 20)) {
        Some(IccError::Malformed("unknown profile connection space"))
    } else if strict && !reserved_clear(bytes) {
        Some(IccError::Malformed("reserved header bytes are not zero"))
    } else {
        None
    }
}

/// The header facts of a profile, or what is wrong with its header.
#[verifier::opaque]
pub open spec fn header_of(bytes: Seq<u8>, strict: bool) -> Result<ProfileHeader, IccError> {
    match header_fault(bytes, strict) {
        Some(error) => Err(error),
        None => Ok(choose|header: ProfileHeader| #[trigger] header.encoded_by(bytes)),
    }
}

/// Whether the reserved bytes at the end of the header are all zero.
fn is_reserved_clear(bytes: &[u8]) -> (r: bool)
    requires
        bytes@.len() >= HEADER_SIZE,
    ensures
        r == reserved_clear(bytes@),
{
    let mut i: usize = 100;
    while i < 128
        invariant
            100 <= i <= 128,
            bytes@.len() >= 128,
            forall|j: int| 100 <= j < i ==> bytes@[j] == 0,
        decreases 128 - i,
    {
        if bytes[i] != 0 {
            return false;
        }
        i = i + 1;
    }
    true
}

/// Reads the header of a profile.
///
/// The header is wrong where it is too short, lacks the file signature, or names a class or colour
/// space that is not known; in strict mode also where a reserved byte is not zero.
pub fn read_header(bytes: &[u8], strict: bool) -> (r: Result<ProfileHeader, IccError>)
    ensures
        r == header_of(bytes@, strict),
        match r {
            Ok(header) => header_fault(bytes@, strict) is None && header.encoded_by(bytes@),
            Err(error) => header_fault(bytes@, strict) == Some(error),
        },
{
    reveal(header_of);
    if bytes.len() < HEADER_SIZE {
        return Err(IccError::Malformed("the profile is shorter than its header"));
    }
    if read_number(bytes, 36) != 0x61637370 {
        return Err(IccError::Malformed("the profile file signature is missing"));
    }
    let device_class = match DeviceClass::from_signature(Signature { code: read_number(bytes, 12) }) {
        Some(class) => class,
        None => return Err(IccError::Malformed("unknown device class")),
    };
    assert(device_class.code() == number_at(bytes@, 12));
    let data_color_space = match ColorSpace::from_signature(
        Signature { code: read_number(bytes, 16) },
    ) {
        Some(space) => space,
        None => return Err(IccError::Malformed("unknown data colour space")),
    };
    assert(data_color_space.code() == number_at(bytes@, 16));
    let pcs = match ColorSpace::from_signature(Signature { code: read_number(bytes, 20) }) {
        Some(space) => space,
        None => return Err(IccError::Malformed("unknown profile connection space")),
    };
    assert(pcs.code() == number_at(bytes@, 20));
    if strict && !is_reserved_clear(bytes) {
        return Err(IccError::Malformed("reserved header bytes are not zero"));
    }
    let version = ProfileVersion { major: bytes[8], minor: bytes[9] / 16, patch: bytes[9] % 16 };
    let header = ProfileHeader { version, device_class, data_color_space, pcs };
    proof {
        assert(header.encoded_by(bytes@));
        law_header_is_determined(
            header,
            choose|h: ProfileHeader| #[trigger] h.encoded_by(bytes@),
            bytes@,
        );
    }
    Ok(header)
}

/// A header without a fault encodes some header facts.
pub proof fn lemma_header_exists(bytes: Seq<u8>, strict: bool)
    requires
        header_fault(bytes, strict) is None,
    ensures
        header_of(bytes, strict) matches Ok(header) && header.encoded_by(bytes),
{
    reveal(header_of);
    let header = ProfileHeader {
        version: ProfileVersion { major: bytes[8], minor: bytes[9] / 16, patch: bytes[9] % 16 },
        device_class: choose|class: DeviceClass|
            (#[trigger] class.code()) == number_at(bytes, 12),
        data_color_space: choose|space: ColorSpace|
            (#[trigger] space.code()) == number_at(bytes, 16),
        pcs: choose|space: ColorSpace| (#[trigger] space.code()) == number_at(bytes, 20),
    };
    assert(header.encoded_by(bytes));
}

/// No two device classes share a code, so the signature of a class stands for that class alone.
pub proof fn law_class_codes_are_distinct(a: DeviceClass, b: DeviceClass)
    ensures
        a.code() == b.code() ==> a == b,
{
}

/// No two colour spaces share a code, so the signature of a space stands for that space alone.
pub proof fn law_space_codes_are_distinct(a: ColorSpace, b: ColorSpace)
    ensures
        a.code() == b.code() ==> a == b,
{
}

/// The header facts of a profile are determined by its bytes.
pub proof fn law_header_is_determined(a: ProfileHeader, b: ProfileHeader, bytes: Seq<u8>)
    requires
        a.encoded_by(bytes),
        b.encoded_by(bytes),
    ensures
        a == b,
{
    law_class_codes_are_distinct(a.device_class, b.device_class);
    law_space_codes_are_distinct(a.data_color_space, b.data_color_space);
    law_space_codes_are_distinct(a.pcs, b.pcs);
}

/// The code of a signature spells its four bytes, the first of which is the highest.
pub open spec fn spelt(a: u8, b: u8, c: u8, d: u8) -> int {
    a * 0x1000000 + b * 0x10000 + c * 0x100 + d
}

/// Each device class has the signature that profiles give it.
pub proof fn law_class_codes_spell_their_signatures(class: DeviceClass)
    ensures
        class.code() == match class {
            DeviceClass::Input => spelt('s' as u8, 'c' as u8, 'n' as u8, 'r' as u8),
            DeviceClass::Display => spelt('m' as u8, 'n' as u8, 't' as u8, 'r' as u8),
            DeviceClass::Output => spelt('p' as u8, 'r' as u8, 't' as u8, 'r' as u8),
            DeviceClass::DeviceLink => spelt('l' as u8, 'i' as u8, 'n' as u8, 'k' as u8),
            DeviceClass::ColorSpace => spelt('s' as u8, 'p' as u8, 'a' as u8, 'c' as u8),
            DeviceClass::Abstract => spelt('a' as u8, 'b' as u8, 's' as u8, 't' as u8),
            DeviceClass::NamedColor => spelt('n' as u8, 'm' as u8, 'c' as u8, 'l' as u8),
        },
{
}

/// The hexadecimal digit of a number of generic channels.
pub open spec fn channel_digit(channels: u8) -> int {
    if channels < 10 {
        '0' as u8 + channels
    } else {
        'A' as u8 + channels - 10
    }
}

/// Each colour space has the signature that profiles give it. That of generic channels is their
/// number in a hexadecimal digit and the letters `CLR`; the named spaces have three channels but
/// for grey, which has one, and CMYK, which has four.
pub proof fn law_space_codes_spell_their_signatures(space: ColorSpace)
    ensures
        match space {
            ColorSpace::Xyz => space.code() == spelt('X' as u8, 'Y' as u8, 'Z' as u8, ' ' as u8)
                && space.channels() == 3,
            ColorSpace::Lab => space.code() == spelt('L' as u8, 'a' as u8, 'b' as u8, ' ' as u8)
                && space.channels() == 3,
            ColorSpace::Luv => space.code() == spelt('L' as u8, 'u' as u8, 'v' as u8, ' ' as u8)
                && space.channels() == 3,
            ColorSpace::YCbCr => space.code() == spelt('Y' as u8, 'C' as u8, 'b' as u8, 'r' as u8)
                && space.channels() == 3,
            ColorSpace::Yxy => space.code() == spelt('Y' as u8, 'x' as u8, 'y' as u8, ' ' as u8)
                && space.channels() == 3,
            ColorSpace::Rgb => space.code() == spelt('R' as u8, 'G' as u8, 'B' as u8, ' ' as u8)
                && space.channels() == 3,
            ColorSpace::Gray => space.code() == spelt('G' as u8, 'R' as u8, 'A' as u8, 'Y' as u8)
                && space.channels() == 1,
            ColorSpace::Hsv => space.code() == spelt('H' as u8, 'S' as u8, 'V' as u8, ' ' as u8)
                && space.channels() == 3,
            ColorSpace::Hls => space.code() == spelt('H' as u8, 'L' as u8, 'S' as u8, ' ' as u8)
                && space.channels() == 3,
            ColorSpace::Cmyk => space.code() == spelt('C' as u8, 'M' as u8, 'Y' as u8, 'K' as u8)
                && space.channels() == 4,
            ColorSpace::Cmy => space.code() == spelt('C' as u8, 'M' as u8, 'Y' as u8, ' ' as u8)
                && space.channels() == 3,
            _ => space.code() == channel_digit(space.channels()) * 0x1000000 + spelt(
                0,
                'C' as u8,
                'L' as u8,
                'R' as u8,
            ),
        },
        2 <= channel_number(space) ==> space.channels() == channel_number(space),
{
}

/// The number of channels that the name of a colour space of generic channels gives, and zero for
/// the others.
pub open spec fn channel_number(space: ColorSpace) -> int {
    match space {
        ColorSpace::Color2 => 2,
        ColorSpace::Color3 => 3,
        ColorSpace::Color4 => 4,
        ColorSpace::Color5 => 5,
        ColorSpace::Color6 => 6,
        ColorSpace::Color7 => 7,
        ColorSpace::Color8 => 8,
        ColorSpace::Color9 => 9,
        ColorSpace::Color10 => 10,
        ColorSpace::Color11 => 11,
        ColorSpace::Color12 => 12,
        ColorSpace::Color13 => 13,
        ColorSpace::Color14 => 14,
        ColorSpace::Color15 => 15,
        _ => 0,
    }
}

/// The header of a profile is accepted just where it has its size, the file signature, a known
/// class and known spaces, and in strict mode zero bytes in its last part. What is read of it
/// encodes again to the bytes that it was read from.
pub proof fn law_headers_are_read_from_their_bytes(bytes: Seq<u8>, strict: bool)
    ensures
        match header_of(bytes, strict) {
            Ok(header) => {
                &&& bytes.len() >= 128
                &&& spelt(bytes[36], bytes[37], bytes[38], bytes[39]) == spelt(
                    'a' as u8,
                    'c' as u8,
                    's' as u8,
                    'p' as u8,
                )
                &&& header.version.major == bytes[8]
                &&& header.version.minor * 16 + header.version.patch == bytes[9]
                &&& header.version.patch < 16
                &&& header.device_class.code() == spelt(bytes[12], bytes[13], bytes[14], bytes[15])
                &&& header.data_color_space.code() == spelt(
                    bytes[16],
                    bytes[17],
                    bytes[18],
                    bytes[19],
                )
                &&& header.pcs.code() == spelt(bytes[20], bytes[21], bytes[22], bytes[23])
                &&& strict ==> forall|i: int| 100 <= i < 128 ==> bytes[i] == 0
            },
            Err(_) => {
                ||| bytes.len() < 128
                ||| spelt(bytes[36], bytes[37], bytes[38], bytes[39]) != spelt(
                    'a' as u8,
                    'c' as u8,
                    's' as u8,
                    'p' as u8,
                )
                ||| forall|class: DeviceClass|
                    (#[trigger] class.code()) != spelt(bytes[12], bytes[13], bytes[14], bytes[15])
                ||| forall|space: ColorSpace|
                    (#[trigger] space.code()) != spelt(bytes[16], bytes[17], bytes[18], bytes[19])
                ||| forall|space: ColorSpace|
                    (#[trigger] space.code()) != spelt(bytes[20], bytes[21], bytes[22], bytes[23])
                ||| strict && exists|i: int| 100 <= i < 128 && #[trigger] bytes[i] != 0
            },
        },
{
    reveal(header_of);
    if header_fault(bytes, strict) is None {
        lemma_header_exists(bytes, strict);
    }
}

} // verus!
