use gamut::encoding::encode_packet;
use gamut::{
    Namespace, WellKnownNs, XmpEdit, XmpEncoding, XmpMeta, XmpPacket, XmpProperty, XmpValue,
};

const PACKET: &str = "<?xpacket begin='' id='custom'?>\n\
     <rdf:RDF xmlns:rdf='http://www.w3.org/1999/02/22-rdf-syntax-ns#' \
     xmlns:xmp='http://ns.adobe.com/xap/1.0/'>\
     <rdf:Description rdf:about=''><xmp:Rating>3</xmp:Rating></rdf:Description>\
     </rdf:RDF>\n   <?xpacket end='w'?>";

#[test]
fn unchanged_transaction_returns_exact_source_bytes() {
    let bytes = PACKET.as_bytes();
    assert_eq!(XmpEdit::from_packet(bytes).unwrap().finish(), bytes);
}

#[test]
fn changed_transaction_preserves_envelope_and_padding() {
    let mut edit = XmpEdit::from_packet(PACKET.as_bytes()).unwrap();
    edit.set(XmpProperty::new(
        WellKnownNs::Xmp.uri(),
        "Rating",
        XmpValue::Simple("5".into()),
    ));
    let output = edit.finish();
    let decoded = XmpPacket::scan_with_source(&output).unwrap();
    assert_eq!(decoded.packet.padding, 4);
    assert!(decoded.packet.writable);
    assert_eq!(
        decoded
            .packet
            .parse()
            .unwrap()
            .get_text(WellKnownNs::Xmp.uri(), "Rating"),
        Some("5")
    );
    assert!(
        decoded
            .decoded
            .starts_with("<?xpacket begin='' id='custom'?>")
    );
    assert!(decoded.decoded.ends_with("<?xpacket end='w'?>"));
}

#[test]
fn changed_transaction_retains_wide_encoding_and_bom() {
    let source = encode_packet(PACKET, XmpEncoding::Utf16Le, true);
    let mut edit = XmpEdit::from_packet(&source).unwrap();
    edit.set(XmpProperty::new(
        WellKnownNs::Xmp.uri(),
        "Rating",
        XmpValue::Simple("4".into()),
    ));
    let output = edit.finish();
    assert!(output.starts_with(&[0xFF, 0xFE]));
    let decoded = XmpPacket::scan_with_source(&output).unwrap();
    assert_eq!(decoded.encoding, XmpEncoding::Utf16Le);
    assert!(decoded.had_bom);
    assert_eq!(
        decoded
            .packet
            .parse()
            .unwrap()
            .get_text(WellKnownNs::Xmp.uri(), "Rating"),
        Some("4")
    );
}

#[test]
fn merge_and_remove_are_composable() {
    let mut edit = XmpEdit::from_packet(PACKET.as_bytes()).unwrap();
    let mut additions = XmpMeta::new();
    additions.set_text(WellKnownNs::DublinCore.uri(), "format", "application/pdf");
    edit.merge(&additions);
    assert!(edit.remove(WellKnownNs::Xmp.uri(), "Rating"));
    let parsed = XmpMeta::from_packet(&edit.finish()).unwrap();
    assert!(parsed.get(WellKnownNs::Xmp.uri(), "Rating").is_none());
    assert_eq!(
        parsed.get_text(WellKnownNs::DublinCore.uri(), "format"),
        Some("application/pdf")
    );
}

#[test]
fn changed_transaction_uses_registered_namespace_prefix() {
    let mut edit = XmpEdit::from_packet(PACKET.as_bytes()).unwrap();
    edit.register_namespace(Namespace::new("urn:example:invoice", "invoice"));
    edit.set(XmpProperty::new(
        "urn:example:invoice",
        "Kind",
        XmpValue::Simple("credit-note".into()),
    ));

    let output = String::from_utf8(edit.finish()).unwrap();
    assert!(output.contains("xmlns:invoice=\"urn:example:invoice\""));
    assert!(output.contains("<invoice:Kind>credit-note</invoice:Kind>"));
}

#[test]
fn remaps_namespace_recursively_and_retains_its_prefix() {
    let packet = "<rdf:RDF xmlns:rdf='http://www.w3.org/1999/02/22-rdf-syntax-ns#'>\
     <rdf:Description xmlns:old='urn:old'>\
     <old:Root rdf:parseType='Resource'><old:Child>value</old:Child></old:Root>\
     </rdf:Description></rdf:RDF>";
    let mut edit = XmpEdit::from_packet(packet.as_bytes()).unwrap();
    assert_eq!(edit.remap_namespace("urn:old", "urn:new"), 2);
    let output = String::from_utf8(edit.finish()).unwrap();
    assert!(output.contains("xmlns:old=\"urn:new\""));
    let meta = XmpMeta::from_packet(output.as_bytes()).unwrap();
    assert!(meta.get("urn:new", "Root").is_some());
    assert!(meta.get("urn:old", "Root").is_none());
}
