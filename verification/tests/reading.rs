use gamut::{
    XmpArray, XmpError, XmpMeta, XmpPacket, XmpPropertyForm, XmpValue, RDF_NAMESPACE,
    XMPMETA_NAMESPACE,
};

const DC: &str = "http://purl.org/dc/elements/1.1/";
const XMP: &str = "http://ns.adobe.com/xap/1.0/";
const FOO: &str = "http://example.com/foo/";

fn parse(xml: &str) -> XmpMeta {
    XmpMeta::from_packet(xml.as_bytes()).expect("parse")
}

/// Wraps a body in a minimal `rdf:RDF` with the namespaces the tests use.
fn rdf(body: &str) -> String {
    format!(
        "<rdf:RDF xmlns:rdf=\"{RDF_NAMESPACE}\" xmlns:dc=\"{DC}\" xmlns:xmp=\"{XMP}\" \
         xmlns:foo=\"{FOO}\">\
         <rdf:Description rdf:about=\"\">{body}</rdf:Description></rdf:RDF>"
    )
}

#[test]
fn parses_simple_text_property() {
    let meta = parse(&rdf("<xmp:Rating>3</xmp:Rating>"));
    assert_eq!(meta.get_text(XMP, "Rating"), Some("3"));
}

#[test]
fn parses_simple_property_in_attribute_form() {
    // Same graph as the element form.
    let meta = parse(&format!(
        "<rdf:RDF xmlns:rdf=\"{RDF_NAMESPACE}\" xmlns:xmp=\"{XMP}\">\
         <rdf:Description rdf:about=\"\" xmp:Rating=\"3\"/></rdf:RDF>"
    ));
    assert_eq!(meta.get_text(XMP, "Rating"), Some("3"));
}

#[test]
fn uri_value_uses_rdf_resource() {
    let meta = parse(&rdf("<xmp:BaseURL rdf:resource=\"http://example.com/\"/>"));
    assert_eq!(
        meta.get(XMP, "BaseURL").map(|p| &p.value),
        Some(&XmpValue::Uri("http://example.com/".into()))
    );
}

#[test]
fn entity_references_and_whitespace_are_preserved() {
    let meta = parse(&rdf("<dc:format>a &amp; b &lt; c</dc:format>"));
    assert_eq!(meta.get_text(DC, "format"), Some("a & b < c"));
    // Leading/trailing whitespace in a simple value is significant.
    let meta = parse(&rdf("<dc:format>  x  </dc:format>"));
    assert_eq!(meta.get_text(DC, "format"), Some("  x  "));
}

#[test]
fn parses_bag_seq_alt_arrays() {
    let meta = parse(&rdf(
        "<dc:subject><rdf:Bag><rdf:li>a</rdf:li><rdf:li>b</rdf:li></rdf:Bag></dc:subject>",
    ));
    let XmpValue::Array(XmpArray::Bag(items)) = &meta.get(DC, "subject").unwrap().value else {
        panic!("expected Bag");
    };
    assert_eq!(items.len(), 2);
    assert_eq!(items[0].text(), Some("a"));
    assert_eq!(items[1].text(), Some("b"));
}

#[test]
fn parses_language_alternative() {
    let meta = parse(&rdf("<dc:title><rdf:Alt>\
         <rdf:li xml:lang=\"x-default\">Hi</rdf:li>\
         <rdf:li xml:lang=\"fr\">Salut</rdf:li>\
         </rdf:Alt></dc:title>"));
    assert_eq!(meta.get_lang_alt(DC, "title", "x-default"), Some("Hi"));
    assert_eq!(meta.get_lang_alt(DC, "title", "fr"), Some("Salut"));
}

#[test]
fn parses_structure_both_forms_to_same_graph() {
    let nested = parse(&rdf(
        "<xmp:Thumb><rdf:Description><xmp:w>9</xmp:w></rdf:Description></xmp:Thumb>",
    ));
    let concise = parse(&rdf(
        "<xmp:Thumb rdf:parseType=\"Resource\"><xmp:w>9</xmp:w></xmp:Thumb>",
    ));
    assert_eq!(nested.get(XMP, "Thumb"), concise.get(XMP, "Thumb"));
    let XmpValue::Structured(fields) = &nested.get(XMP, "Thumb").unwrap().value else {
        panic!("expected struct");
    };
    assert_eq!(fields[0].name, "w");
    assert_eq!(fields[0].text(), Some("9"));
}

#[test]
fn parses_general_qualifier_form() {
    let meta = parse(&rdf("<dc:rights><rdf:Description>\
         <rdf:value>(c) Me</rdf:value>\
         <xmp:owner>Me</xmp:owner>\
         </rdf:Description></dc:rights>"));
    let prop = meta.get(DC, "rights").unwrap();
    assert_eq!(prop.value, XmpValue::Simple("(c) Me".into()));
    assert_eq!(prop.qualifiers.len(), 1);
    assert_eq!(prop.qualifiers[0].name, "owner");
    assert_eq!(prop.qualifiers[0].text(), Some("Me"));
}

#[test]
fn xml_lang_attribute_becomes_a_qualifier() {
    let meta = parse(&rdf("<dc:format xml:lang=\"en\">text/plain</dc:format>"));
    let prop = meta.get(DC, "format").unwrap();
    assert_eq!(prop.lang(), Some("en"));
}

#[test]
fn default_lang_on_description_is_ignored() {
    // A default xml:lang on rdf:Description is not propagated to the properties it scopes.
    let xml = format!(
        "<rdf:RDF xmlns:rdf=\"{RDF_NAMESPACE}\" xmlns:dc=\"{DC}\">\
         <rdf:Description rdf:about=\"\" xml:lang=\"fr\">\
         <dc:format>text/plain</dc:format></rdf:Description></rdf:RDF>"
    );
    let meta = parse(&xml);
    let prop = meta.get(DC, "format").unwrap();
    assert_eq!(prop.text(), Some("text/plain"));
    assert!(
        prop.qualifiers.is_empty(),
        "no inherited xml:lang qualifier"
    );
}

#[test]
fn finds_rdf_inside_xmpmeta_wrapper() {
    let meta = parse(&format!(
        "<x:xmpmeta xmlns:x=\"{XMPMETA_NAMESPACE}\">{}</x:xmpmeta>",
        rdf("<xmp:Rating>5</xmp:Rating>")
    ));
    assert_eq!(meta.get_text(XMP, "Rating"), Some("5"));
}

#[test]
fn rejects_disallowed_parse_type() {
    let err =
        XmpMeta::from_packet(rdf("<dc:x rdf:parseType=\"Literal\"><b/></dc:x>").as_bytes())
            .unwrap_err();
    assert!(matches!(err, XmpError::UnsupportedForm(_)), "got {err:?}");
}

#[test]
fn rejects_parse_type_collection() {
    // parseType="Collection" shares a branch with "Literal" but must surface its own name in
    // the diagnostic.
    let err = XmpMeta::from_packet(rdf("<dc:x rdf:parseType=\"Collection\"/>").as_bytes())
        .unwrap_err();
    assert!(
        matches!(&err, XmpError::UnsupportedForm(m) if m.contains("Collection")),
        "got {err:?}"
    );
}

#[test]
fn rdf_id_nodeid_and_xml_base_are_ignored() {
    // The permissive read skips rdf:ID/rdf:nodeID/xml:base (RDF reification and base-URI
    // machinery XMP does not use) rather than folding them into data .
    let xml = format!(
        "<rdf:RDF xmlns:rdf=\"{RDF_NAMESPACE}\" xmlns:dc=\"{DC}\">\
         <rdf:Description rdf:about=\"\" rdf:ID=\"n1\" rdf:nodeID=\"n2\" \
         xml:base=\"http://example.com/\">\
         <dc:format rdf:ID=\"n3\">text/plain</dc:format>\
         </rdf:Description></rdf:RDF>"
    );
    let meta = parse(&xml);
    assert_eq!(meta.properties.len(), 1, "no spurious properties");
    let prop = meta.get(DC, "format").unwrap();
    assert_eq!(prop.text(), Some("text/plain"));
    assert!(
        prop.qualifiers.is_empty(),
        "rdf:ID must not become a qualifier: {:?}",
        prop.qualifiers
    );
}

#[test]
fn multiple_descriptions_merge_into_one_graph() {
    // rdf:RDF may hold several rdf:Description elements about the same
    // resource; their properties form one graph.
    let xml = format!(
        "<rdf:RDF xmlns:rdf=\"{RDF_NAMESPACE}\" xmlns:dc=\"{DC}\" xmlns:xmp=\"{XMP}\">\
         <rdf:Description rdf:about=\"\"><dc:format>text/plain</dc:format></rdf:Description>\
         <rdf:Description rdf:about=\"\"><xmp:Rating>3</xmp:Rating></rdf:Description>\
         </rdf:RDF>"
    );
    let meta = parse(&xml);
    assert_eq!(meta.properties.len(), 2);
    assert_eq!(meta.get_text(DC, "format"), Some("text/plain"));
    assert_eq!(meta.get_text(XMP, "Rating"), Some("3"));
}

#[test]
fn duplicate_element_properties_are_rejected_with_source_spans() {
    let xml = rdf("<dc:format>first</dc:format><dc:format>second</dc:format>");
    let err = XmpMeta::from_packet(xml.as_bytes()).unwrap_err();
    let XmpError::DuplicateProperty {
        namespace,
        name,
        first,
        duplicate,
    } = err
    else {
        panic!("expected duplicate-property diagnostic");
    };
    assert_eq!(namespace, DC);
    assert_eq!(name, "format");
    assert_eq!(&xml[first.start..first.end], "<dc:format>first</dc:format>");
    assert_eq!(
        &xml[duplicate.start..duplicate.end],
        "<dc:format>second</dc:format>"
    );
}

#[test]
fn duplicate_properties_across_descriptions_are_rejected() {
    let xml = format!(
        "<rdf:RDF xmlns:rdf=\"{RDF_NAMESPACE}\" xmlns:dc=\"{DC}\">\
         <rdf:Description><dc:format>first</dc:format></rdf:Description>\
         <rdf:Description><dc:format>second</dc:format></rdf:Description>\
         </rdf:RDF>"
    );
    assert!(matches!(
        XmpMeta::from_packet(xml.as_bytes()),
        Err(XmpError::DuplicateProperty { .. })
    ));
}

#[test]
fn attribute_and_element_forms_of_one_property_are_duplicates() {
    let xml = format!(
        "<rdf:RDF xmlns:rdf=\"{RDF_NAMESPACE}\" xmlns:xmp=\"{XMP}\">\
         <rdf:Description xmp:Rating=\"3\"><xmp:Rating>4</xmp:Rating></rdf:Description>\
         </rdf:RDF>"
    );
    assert!(matches!(
        XmpMeta::from_packet(xml.as_bytes()),
        Err(XmpError::DuplicateProperty { namespace, name, .. })
            if namespace == XMP && name == "Rating"
    ));
}

#[test]
fn equal_local_names_in_distinct_namespaces_are_not_duplicates() {
    let meta = parse(&rdf("<dc:format>a</dc:format><foo:format>b</foo:format>"));
    assert_eq!(meta.get_text(DC, "format"), Some("a"));
    assert_eq!(meta.get_text(FOO, "format"), Some("b"));
}

#[test]
fn decoded_document_exposes_property_and_namespace_layout() {
    let xml = format!(
        "<?xpacket begin='' id='x'?>{}<?xpacket end='r'?>",
        rdf("<dc:format>text/plain</dc:format>")
    );
    let decoded = XmpPacket::scan_with_source(xml.as_bytes()).unwrap();
    let document = decoded.parse().unwrap();
    assert_eq!(document.rdf_prefix.as_deref(), Some("rdf"));
    let property = document
        .properties
        .iter()
        .find(|property| property.namespace == DC && property.name == "format")
        .unwrap();
    assert_eq!(property.prefix.as_deref(), Some("dc"));
    assert_eq!(property.form, XmpPropertyForm::Element);
    assert_eq!(
        &decoded.decoded[property.span.start..property.span.end],
        "<dc:format>text/plain</dc:format>"
    );
    assert!(
        document
            .namespaces
            .iter()
            .any(|binding| binding.prefix.as_deref() == Some("dc") && binding.namespace == DC)
    );
}

#[test]
fn attribute_property_layout_records_lexical_prefix_and_form() {
    let xml = format!(
        "<rdf:RDF xmlns:rdf=\"{RDF_NAMESPACE}\" xmlns:xmp=\"{XMP}\">\
         <rdf:Description xmp:Rating=\"3\"/></rdf:RDF>"
    );
    let decoded = XmpPacket::scan_with_source(xml.as_bytes()).unwrap();
    let document = decoded.parse().unwrap();
    let property = &document.properties[0];
    assert_eq!(property.prefix.as_deref(), Some("xmp"));
    assert_eq!(property.form, XmpPropertyForm::Attribute);
    assert!(decoded.decoded[property.span.start..property.span.end].contains("xmp:Rating"));
}

#[test]
fn rejects_rdf_numbered_array_items() {
    let err = XmpMeta::from_packet(
        rdf("<dc:x><rdf:Bag><rdf:_1>a</rdf:_1></rdf:Bag></dc:x>").as_bytes(),
    )
    .unwrap_err();
    // The rdf:_n-specific diagnostic, not the generic "unexpected element" one.
    assert!(
        matches!(&err, XmpError::Prohibited(m) if m.contains("array item")),
        "got {err:?}"
    );
}

#[test]
fn rejects_duplicate_language() {
    let err = XmpMeta::from_packet(
        rdf("<dc:title><rdf:Alt><rdf:li xml:lang=\"en\">a</rdf:li>\
             <rdf:li xml:lang=\"EN\">b</rdf:li></rdf:Alt></dc:title>")
        .as_bytes(),
    )
    .unwrap_err();
    assert!(matches!(err, XmpError::DuplicateLang(_)), "got {err:?}");
}

#[test]
fn missing_rdf_is_an_error() {
    assert!(matches!(
        XmpMeta::from_packet(b"<html></html>"),
        Err(XmpError::MissingRdf)
    ));
}

#[test]
fn malformed_xml_is_an_error() {
    // Properly namespaced, but a mismatched end tag — a genuine lexing failure.
    let bad = format!("<rdf:RDF xmlns:rdf=\"{RDF_NAMESPACE}\"><rdf:Description></rdf:RDF>");
    assert!(matches!(
        XmpMeta::from_packet(bad.as_bytes()),
        Err(XmpError::Xml(_))
    ));
}

#[test]
fn undeclared_prefix_is_an_error() {
    // `rdf:` is used without an xmlns:rdf declaration.
    assert!(matches!(
        XmpMeta::from_packet(b"<rdf:RDF><rdf:Description/></rdf:RDF>"),
        Err(XmpError::UnknownPrefix(_))
    ));
}

#[test]
fn cdata_content_is_read_literally() {
    let meta = parse(&rdf("<dc:format><![CDATA[a < b & c]]></dc:format>"));
    assert_eq!(meta.get_text(DC, "format"), Some("a < b & c"));
}

#[test]
fn rdf_value_attribute_is_a_simple_value() {
    // emptyPropertyElt with rdf:value.
    let meta = parse(&rdf("<dc:format rdf:value=\"text/plain\"/>"));
    assert_eq!(meta.get_text(DC, "format"), Some("text/plain"));
}

#[test]
fn empty_element_with_data_attributes_is_a_structure() {
    // emptyPropertyElt with field attributes.
    let meta = parse(&rdf("<xmp:Thumb foo:w=\"9\" foo:h=\"6\"/>"));
    let XmpValue::Structured(fields) = &meta.get(XMP, "Thumb").unwrap().value else {
        panic!("expected struct");
    };
    assert_eq!(fields.len(), 2);
    assert!(
        fields
            .iter()
            .any(|f| f.name == "w" && f.text() == Some("9"))
    );
}

#[test]
fn typed_node_becomes_struct_with_rdf_type_qualifier() {
    // An arbitrarily-named node where rdf:Description is expected.
    let meta = parse(&rdf(
        "<xmp:Thumb><foo:Image><foo:w>9</foo:w></foo:Image></xmp:Thumb>",
    ));
    let prop = meta.get(XMP, "Thumb").unwrap();
    let XmpValue::Structured(fields) = &prop.value else {
        panic!("expected struct");
    };
    assert_eq!(fields[0].name, "w");
    // The type's URI is the typed node's expanded name.
    assert_eq!(prop.qualifiers.len(), 1);
    assert_eq!(prop.qualifiers[0].namespace, RDF_NAMESPACE);
    assert_eq!(prop.qualifiers[0].name, "type");
    assert_eq!(
        prop.qualifiers[0].value,
        XmpValue::Uri(format!("{FOO}Image"))
    );
}

#[test]
fn property_without_a_namespace_is_rejected() {
    // An unprefixed property element (no default namespace) has no namespace URI.
    let err = XmpMeta::from_packet(
        format!(
            "<rdf:RDF xmlns:rdf=\"{RDF_NAMESPACE}\"><rdf:Description rdf:about=\"\">\
             <plain>x</plain></rdf:Description></rdf:RDF>"
        )
        .as_bytes(),
    )
    .unwrap_err();
    assert!(matches!(err, XmpError::Prohibited(_)), "got {err:?}");
}

#[test]
fn multiple_child_elements_are_rejected() {
    let err =
        XmpMeta::from_packet(rdf("<dc:x><foo:a/><foo:b/></dc:x>").as_bytes()).unwrap_err();
    assert!(matches!(err, XmpError::Prohibited(_)), "got {err:?}");
}

#[test]
fn top_level_typed_node_is_rejected() {
    // rdf:RDF must contain rdf:Description, not a bare typed node.
    let xml = format!(
        "<rdf:RDF xmlns:rdf=\"{RDF_NAMESPACE}\" xmlns:foo=\"{FOO}\"><foo:Thing/></rdf:RDF>"
    );
    let err = XmpMeta::from_packet(xml.as_bytes()).unwrap_err();
    assert!(matches!(err, XmpError::Prohibited(_)), "got {err:?}");
}

#[test]
fn rdf_value_carrying_a_qualifier_is_rejected() {
    // rdf:value must not carry xml:lang or nested qualifiers.
    let err = XmpMeta::from_packet(
        rdf(
            "<dc:x><rdf:Description><rdf:value xml:lang=\"en\">v</rdf:value>\
             </rdf:Description></dc:x>",
        )
        .as_bytes(),
    )
    .unwrap_err();
    assert!(matches!(err, XmpError::Prohibited(_)), "got {err:?}");
}

#[test]
fn non_li_element_in_an_array_is_rejected() {
    let err =
        XmpMeta::from_packet(rdf("<dc:x><rdf:Bag><foo:item/></rdf:Bag></dc:x>").as_bytes())
            .unwrap_err();
    assert!(matches!(err, XmpError::Prohibited(_)), "got {err:?}");
}

#[test]
fn rdf_namespaced_non_li_uses_the_generic_message() {
    // An rdf:-namespaced element that is neither rdf:li nor rdf:_n takes the generic branch,
    // not the rdf:_n one — so the condition truly needs both "rdf namespace" AND "starts with
    // '_'", not either alone.
    let err =
        XmpMeta::from_packet(rdf("<dc:x><rdf:Bag><rdf:foo/></rdf:Bag></dc:x>").as_bytes())
            .unwrap_err();
    let XmpError::Prohibited(msg) = &err else {
        panic!("expected Prohibited, got {err:?}");
    };
    assert!(
        msg.contains("in an rdf array"),
        "expected the generic message: {msg}"
    );
    assert!(
        !msg.contains("array item"),
        "rdf:foo is not an rdf:_n item: {msg}"
    );
}

#[test]
fn multiple_root_elements_are_rejected() {
    // Two top-level rdf:RDF elements — only one root document is allowed.
    let xml = format!(
        "<rdf:RDF xmlns:rdf=\"{RDF_NAMESPACE}\"/><rdf:RDF xmlns:rdf=\"{RDF_NAMESPACE}\"/>"
    );
    assert!(
        matches!(XmpMeta::from_packet(xml.as_bytes()), Err(XmpError::Xml(_))),
        "a second root element must be rejected, not silently replace the first"
    );
}

#[test]
fn packet_parse_composes_with_scan() {
    // from_packet ≡ scan ∘ parse; the two-step form additionally exposes the envelope.
    let mut meta = XmpMeta::new();
    meta.set_text(DC, "format", "text/plain");
    let bytes = meta.to_packet();

    let packet = XmpPacket::scan(&bytes).expect("scan");
    assert!(packet.writable, "default writer output is writable");
    assert_eq!(
        packet.parse().expect("parse"),
        XmpMeta::from_packet(&bytes).expect("from_packet")
    );
}

#[test]
fn packet_parse_reports_body_errors() {
    let packet = XmpPacket {
        body: "<html></html>".into(),
        writable: false,
        padding: 0,
    };
    assert!(matches!(packet.parse(), Err(XmpError::MissingRdf)));
}

#[test]
fn xmlns_declarations_are_not_treated_as_properties() {
    // An xmlns declaration sitting on the Description must be skipped, not folded into a
    // spurious property.
    let xml = format!(
        "<rdf:RDF xmlns:rdf=\"{RDF_NAMESPACE}\" xmlns:dc=\"{DC}\">\
         <rdf:Description rdf:about=\"\" xmlns:unused=\"http://example.com/unused/\">\
         <dc:format>text/plain</dc:format></rdf:Description></rdf:RDF>"
    );
    let meta = parse(&xml);
    assert_eq!(
        meta.properties.len(),
        1,
        "only dc:format, no xmlns property"
    );
    assert_eq!(meta.get_text(DC, "format"), Some("text/plain"));
}
