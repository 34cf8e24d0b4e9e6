use gamut::{
    ColorSpace, DeviceClass, IccError, IccProfile, IccProfileIdentity, IccReader, ProfileAssets,
    ProfileId, Signature, StandardProfile, TagData,
};

/// A profile of 128 header bytes and an empty tag table.
fn bare_profile() -> Vec<u8> {
    let mut bytes = vec![0; 132];
    bytes[8] = 4;
    bytes[9] = 0x32;
    bytes[12..16].copy_from_slice(b"prtr");
    bytes[16..20].copy_from_slice(b"CMYK");
    bytes[20..24].copy_from_slice(b"Lab ");
    bytes[36..40].copy_from_slice(b"acsp");
    bytes
}

#[test]
fn checksums_are_md5() {
    for (message, digest) in [
        ("", "d41d8cd98f00b204e9800998ecf8427e"),
        ("a", "0cc175b9c0f1b6a831c399e269772661"),
        ("abc", "900150983cd24fb0d6963f7d28e17f72"),
        ("message digest", "f96b697d7cb7938d525a2f31aaf161d0"),
        (
            "abcdefghijklmnopqrstuvwxyz",
            "c3fcd3d76192e4007dfb496cca67e13b",
        ),
        (
            "12345678901234567890123456789012345678901234567890123456789012345678901234567890",
            "57edf4a22be3c955ac49da2e2107b67a",
        ),
    ] {
        assert_eq!(ProfileId::checksum(message.as_bytes()).to_string(), digest);
    }
}

#[test]
fn an_identity_holds_the_header_facts() {
    let bytes = bare_profile();
    let identity = IccProfileIdentity::from_bytes(&bytes).unwrap();
    assert_eq!(identity.device_class, DeviceClass::Output);
    assert_eq!(identity.data_color_space, ColorSpace::Cmyk);
    assert_eq!(identity.pcs, ColorSpace::Lab);
    assert_eq!(identity.version.major, 4);
    assert_eq!(identity.version.minor, 3);
    assert_eq!(identity.version.patch, 2);
    assert_eq!(identity.component_count(), 4);
    assert_eq!(identity.device_class_signature().to_bytes(), *b"prtr");
    assert_eq!(identity.color_space_signature(), Signature::new(*b"CMYK"));
    assert_eq!(identity.checksum, ProfileId::checksum(&bytes));
    assert_eq!(identity.canonical_id, identity.checksum);
}

#[test]
fn the_canonical_id_leaves_out_flags_and_intent() {
    let bytes = bare_profile();
    let mut changed = bytes.clone();
    changed[44] = 1;
    changed[67] = 3;
    let before = IccProfileIdentity::from_bytes(&bytes).unwrap();
    let after = IccProfileIdentity::from_bytes(&changed).unwrap();
    assert_eq!(before.canonical_id, after.canonical_id);
    assert_ne!(before.checksum, after.checksum);
    let mut embedded = bytes;
    embedded[84..100].copy_from_slice(&[7; 16]);
    let identity = IccProfileIdentity::from_bytes(&embedded).unwrap();
    assert_eq!(identity.canonical_id, ProfileId([7; 16]));
    assert_eq!(
        identity.canonical_id.to_string(),
        "07070707070707070707070707070707"
    );
}

#[test]
fn faults_of_the_header_are_told_apart() {
    let fault = |at: usize, code: &[u8; 4]| {
        let mut bytes = bare_profile();
        bytes[at..at + 4].copy_from_slice(code);
        IccProfile::parse(&bytes).unwrap_err()
    };
    assert_eq!(
        fault(36, b"none"),
        IccError::Malformed("the profile file signature is missing")
    );
    assert_eq!(fault(12, b"none"), IccError::Malformed("unknown device class"));
    assert_eq!(
        fault(16, b"none"),
        IccError::Malformed("unknown data colour space")
    );
    assert_eq!(
        fault(20, b"none"),
        IccError::Malformed("unknown profile connection space")
    );
    assert_eq!(
        IccProfileIdentity::from_bytes(&[0; 127]),
        Err(IccError::Malformed("the profile is shorter than its header"))
    );
    assert_eq!(
        IccProfile::parse(&bare_profile()[..131]),
        Err(IccError::Malformed("the tag table is truncated"))
    );
    assert_eq!(
        ProfileId::from_profile_bytes(&[0; 5]),
        Err(IccError::Malformed("the profile is shorter than its header"))
    );
}

/// A profile with one tag that holds the given data.
fn tagged_profile(data: &[u8]) -> Vec<u8> {
    let mut bytes = bare_profile();
    bytes[128..132].copy_from_slice(&1u32.to_be_bytes());
    bytes.extend_from_slice(b"test");
    bytes.extend_from_slice(&144u32.to_be_bytes());
    bytes.extend_from_slice(&(data.len() as u32).to_be_bytes());
    bytes.extend_from_slice(data);
    bytes
}

#[test]
fn tags_are_decoded_by_their_type() {
    let reader = IccReader::new();
    let text = tagged_profile(b"text\0\0\0\0hello\0rest");
    assert_eq!(
        reader.read_tag(&text, *b"test"),
        Ok(Some(TagData::Text("hello".into())))
    );
    let description = tagged_profile(b"desc\0\0\0\0\0\0\0\x05name\0");
    assert_eq!(
        reader.read_tag(&description, *b"test"),
        Ok(Some(TagData::Description("name".into())))
    );
    let other = tagged_profile(b"XYZ \0\0\0\0\x01\x02");
    assert_eq!(
        reader.read_tag(&other, *b"test"),
        Ok(Some(TagData::Other {
            kind: Signature::new(*b"XYZ "),
            data: vec![1, 2],
        }))
    );
    assert_eq!(
        reader.read_tag(&tagged_profile(b"text"), *b"test"),
        Err(IccError::Malformed("the tag data is too short"))
    );
}

#[test]
fn reading_one_tag_agrees_with_reading_all() {
    let bytes = tagged_profile(b"text\0\0\0\0hello\0");
    for strict in [true, false] {
        let reader = IccReader::new().strict(strict);
        let profile = reader.parse(&bytes).unwrap();
        assert_eq!(profile.tags.len(), 1);
        assert_eq!(
            reader.read_tag(&bytes, *b"test").unwrap().as_ref(),
            Some(&profile.tags[0].data)
        );
    }
    assert_eq!(
        IccReader::new().strict(true).parse(&bytes),
        IccReader::new().parse(&bytes)
    );
}

#[test]
fn strict_mode_rejects_data_inside_the_table() {
    let mut bytes = tagged_profile(b"text\0\0\0\0hello\0");
    bytes[136..140].copy_from_slice(&128u32.to_be_bytes());
    assert!(IccReader::new().read_tag(&bytes, *b"test").is_ok());
    assert!(IccReader::new()
        .strict(true)
        .read_tag(&bytes, *b"test")
        .is_err());
    assert!(IccReader::new().strict(true).parse(&bytes).is_err());
}

#[test]
fn canonical_names_resolve_in_any_case() {
    for profile in StandardProfile::ALL {
        let name = profile.name();
        assert_eq!(StandardProfile::from_name(name), Some(profile));
        assert_eq!(
            StandardProfile::from_name(&name.to_ascii_uppercase()),
            Some(profile)
        );
        assert_eq!(
            StandardProfile::from_name(&name.to_ascii_lowercase()),
            Some(profile)
        );
    }
}

#[test]
fn the_catalogue_hands_out_the_asset_of_each_profile() {
    let mut gray = bare_profile();
    gray[16..20].copy_from_slice(b"GRAY");
    let assets = ProfileAssets {
        srgb_v2: vec![1],
        sgrey_v2: gray,
        cgats21_crpc6: bare_profile(),
        iso_coated_v2_eci: vec![],
    };
    assert_eq!(StandardProfile::SrgbV2.bytes(&assets), [1]);
    assert_eq!(
        StandardProfile::Cgats21Crpc6.bytes(&assets),
        bare_profile().as_slice()
    );
    assert_eq!(
        StandardProfile::SgreyV2
            .identity(&assets)
            .unwrap()
            .component_count(),
        1
    );
    assert!(StandardProfile::IsoCoatedV2Eci.identity(&assets).is_err());
    for profile in StandardProfile::ALL {
        assert!(!profile.is_pinned(&assets));
    }
}
