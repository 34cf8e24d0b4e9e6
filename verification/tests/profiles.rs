use gamut::{IccReader, StandardProfile, TagData};

fn indexed_tags() -> Vec<u8> {
    let mut bytes = vec![0; 156];
    bytes[12..16].copy_from_slice(b"mntr");
    bytes[16..20].copy_from_slice(b"RGB ");
    bytes[20..24].copy_from_slice(b"XYZ ");
    bytes[36..40].copy_from_slice(b"acsp");
    bytes[128..132].copy_from_slice(&2u32.to_be_bytes());
    bytes[132..136].copy_from_slice(b"cprt");
    bytes[136..140].copy_from_slice(&156u32.to_be_bytes());
    bytes[140..144].copy_from_slice(&12u32.to_be_bytes());
    bytes[144..148].copy_from_slice(b"desc");
    bytes[148..152].copy_from_slice(&168u32.to_be_bytes());
    bytes[152..156].copy_from_slice(&8u32.to_be_bytes());
    bytes.extend_from_slice(b"text\0\0\0\0yes\0desc\0\0\0\0");
    bytes
}

#[test]
fn read_tag_is_independent_of_other_payload_errors() {
    let bytes = indexed_tags();
    let reader = IccReader::new();
    assert!(reader.parse(&bytes).is_err());
    assert!(matches!(
        reader.read_tag(&bytes, *b"cprt").unwrap(),
        Some(TagData::Text(_))
    ));
    assert!(reader.read_tag(&bytes, *b"desc").is_err());
    assert!(reader.read_tag(&bytes, *b"A2B1").unwrap().is_none());
}

#[test]
fn read_tag_enforces_index_and_selected_payload_bounds() {
    let reader = IccReader::new();
    let bytes = indexed_tags();
    assert!(reader.read_tag(&bytes[..150], *b"cprt").is_err());
    assert!(reader.read_tag(&bytes[..160], *b"cprt").is_err());
    let mut duplicate = bytes.clone();
    duplicate[144..148].copy_from_slice(b"cprt");
    assert!(reader.read_tag(&duplicate, *b"cprt").is_err());
    let mut reserved = bytes;
    reserved[100] = 1;
    assert!(reader.read_tag(&reserved, *b"cprt").is_ok());
    assert!(reader.strict(true).read_tag(&reserved, *b"cprt").is_err());
}

#[test]
fn conventional_names_resolve_to_typed_profiles() {
    let cases = [
        ("sRGB IEC61966-2.1", StandardProfile::SrgbV2),
        ("SRGB", StandardProfile::SrgbV2),
        ("sGrey", StandardProfile::SgreyV2),
        ("CGATS21 CRPC6", StandardProfile::Cgats21Crpc6),
        ("ISO Coated v2 ECI", StandardProfile::IsoCoatedV2Eci),
        ("Coated FOGRA39 ICC v2", StandardProfile::IsoCoatedV2Eci),
    ];

    for (name, expected) in cases {
        assert_eq!(StandardProfile::from_name(name), Some(expected));
    }
    assert_eq!(StandardProfile::from_name("unknown profile"), None);
}
