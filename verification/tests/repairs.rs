use gamut::{canonicalise_xmp_packet, close_xmp_wrappers, repair_xmp_serialisation};

#[test]
fn closes_missing_outer_wrapper_without_changing_packet_instructions() {
    let packet =
        b"<?xpacket begin='' id='x'?><x:xmpmeta><rdf:RDF></rdf:RDF>  <?xpacket end='w'?>";
    let repaired = close_xmp_wrappers(packet).unwrap().unwrap();
    assert_eq!(
        repaired,
        b"<?xpacket begin='' id='x'?><x:xmpmeta><rdf:RDF></rdf:RDF></x:xmpmeta>  <?xpacket end='w'?>"
    );
}

#[test]
fn repairs_case_only_close_mismatch() {
    let packet = b"<?xpacket begin='' id='x'?><x:xmpmeta><rdf:RDF><dc:title>x</dc:Title></rdf:RDF></x:xmpmeta><?xpacket end='r'?>";
    let repaired = repair_xmp_serialisation(packet).unwrap().unwrap();
    assert!(String::from_utf8(repaired).unwrap().contains("</dc:title>"));
}

#[test]
fn canonicalises_packet_envelope() {
    let packet =
        b"<?xpacket begin='' id='other' bytes='12'?><rdf:RDF/><?xpacket end='w' note='x'?>";
    let canonical = canonicalise_xmp_packet(packet).unwrap();
    let text = String::from_utf8(canonical).unwrap();
    assert!(text.starts_with("<?xpacket begin='\u{FEFF}' id='W5M0MpCehiHzreSzNTczkc9d'?>"));
    assert!(text.ends_with("<?xpacket end='w'?>"));
}
