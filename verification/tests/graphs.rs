use gamut::{WellKnownNs, XmpArray, XmpMeta, XmpProperty, XmpValue};

const DC: &str = "http://purl.org/dc/elements/1.1/";

#[test]
fn set_replaces_and_remove_takes_away() {
    let mut meta = XmpMeta::new();
    meta.set_text(DC, "format", "a");
    meta.set_text(DC, "source", "s");
    meta.set_text(DC, "format", "b");
    assert_eq!(meta.properties.len(), 2);
    assert_eq!(meta.get_text(DC, "format"), Some("b"));
    assert_eq!(meta.get_text(DC, "source"), Some("s"));
    let taken = meta.remove(DC, "format").unwrap();
    assert_eq!(taken.text(), Some("b"));
    assert!(meta.get(DC, "format").is_none());
    assert!(meta.remove(DC, "format").is_none());
    assert_eq!(meta.get_text(DC, "source"), Some("s"));
}

#[test]
fn names_in_other_namespaces_are_other_properties() {
    let mut meta = XmpMeta::new();
    meta.set_text(DC, "format", "a");
    assert!(meta.get(WellKnownNs::Xmp.uri(), "format").is_none());
    assert!(meta.get_text(DC, "Format").is_none());
}

#[test]
fn language_alternatives_are_set_and_found() {
    let mut meta = XmpMeta::new();
    meta.set_lang_alt(DC, "title", "fr", "Bonjour");
    meta.set_lang_alt(DC, "title", "x-default", "Hello");
    meta.set_lang_alt(DC, "title", "fr", "Salut");
    assert_eq!(meta.get_lang_alt(DC, "title", "fr"), Some("Salut"));
    assert_eq!(meta.get_lang_alt(DC, "title", "x-default"), Some("Hello"));
    let property = meta.get(DC, "title").unwrap();
    match &property.value {
        XmpValue::Array(XmpArray::Alt(items)) => {
            assert_eq!(items.len(), 2);
            assert_eq!(items[0].lang(), Some("x-default"));
            assert_eq!(items[0].text(), Some("Hello"));
            assert_eq!(items[1].lang(), Some("fr"));
        }
        _ => panic!("not an alternative"),
    }
}

#[test]
fn text_is_of_simple_values_only() {
    let property = XmpProperty::new(DC, "a", XmpValue::Uri("urn:x".into()));
    assert_eq!(property.text(), None);
    assert_eq!(property.lang(), None);
}

#[test]
fn well_known_namespaces_have_their_prefixes() {
    assert_eq!(WellKnownNs::DublinCore.uri(), DC);
    assert_eq!(WellKnownNs::DublinCore.prefix(), "dc");
    assert_eq!(WellKnownNs::XmpMm.uri(), "http://ns.adobe.com/xap/1.0/mm/");
    assert_eq!(WellKnownNs::XmpMm.prefix(), "xmpMM");
}
