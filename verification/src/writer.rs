//! The XMP writer: an [`XmpMeta`] graph → canonical RDF/XML in an `<?xpacket?>` wrapper.
//!
//! There is one fixed form for each value: properties are elements of a single
//! `rdf:Description`, structures use `rdf:parseType="Resource"`, a language is an attribute, and
//! other qualifiers stand beside the value in a nested `rdf:Description`.

use vstd::prelude::*;
use vstd::string::*;
use vstd::utf8::*;

use crate::error;
use crate::model;
use crate::model::{
    ArrayKind, ItemView, PropertyView, ValueView, XmpArray, XmpItem, XmpMeta, XmpProperty, XmpValue,
};
use crate::namespace;
use crate::namespace::{
    Namespace, NamespaceView, WellKnownNs, RDF_NAMESPACE, XMPMETA_NAMESPACE, XML_NAMESPACE,
};
use crate::repair;
use crate::repair::{CANONICAL_BEGIN, CANONICAL_PACKET_ID};
use crate::text;
use crate::text::{chars_of, copy_all, join2, join3, join5, same_text, to_lower_text};
use crate::xml;

verus! {

// ---------------------------------------------------------------------------------------------
// Markup
// ---------------------------------------------------------------------------------------------

/// An element as it is written: always with a start tag and an end tag.
pub struct Written {
    /// Name with its prefix.
    pub name: Seq<char>,
    /// Attributes, as pairs of key and value.
    pub attrs: Seq<(Seq<char>, Seq<char>)>,
    /// Character data.
    pub text: Seq<char>,
    /// Child elements.
    pub children: Seq<Written>,
}

/// Attributes with their values escaped.
pub open spec fn escaped_attrs(attrs: Seq<(Seq<char>, Seq<char>)>) -> Seq<
    (Seq<char>, Seq<char>),
> {
    attrs.map_values(|a: (Seq<char>, Seq<char>)| (a.0, xml::escaped_attribute(a.1)))
}

/// The start tag of an element.
pub open spec fn start_tag(w: Written) -> Seq<char> {
    seq!['<'] + w.name + xml::attributes_text(escaped_attrs(w.attrs)) + seq!['>']
}

/// The end tag of an element.
pub open spec fn end_tag(name: Seq<char>) -> Seq<char> {
    seq!['<', '/'] + name + seq!['>']
}

/// The text of an element.
pub open spec fn rendered(w: Written) -> Seq<char>
    decreases w,
{
    start_tag(w) + xml::escaped_text(w.text) + rendered_all(w.children) + end_tag(w.name)
}

/// The text of some elements.
pub open spec fn rendered_all(s: Seq<Written>) -> Seq<char>
    decreases s,
{
    if s.len() == 0 {
        Seq::empty()
    } else {
        rendered(s[0]) + rendered_all(s.drop_first())
    }
}

/// The entity that stands for `c` in an attribute value.
fn entity_in_attribute(c: char) -> (r: Option<&'static str>)
    ensures
        error::option_view(r) == xml::attribute_entity(c),
{
    if c == '&' {
        Some("amp")
    } else if c == '<' {
        Some("lt")
    } else if c == '>' {
        Some("gt")
    } else if c == '"' {
        Some("quot")
    } else if c == '\t' {
        Some("#x9")
    } else if c == '\n' {
        Some("#xA")
    } else if c == '\r' {
        Some("#xD")
    } else {
        None
    }
}

/// The entity that stands for `c` in character data.
fn entity_in_text(c: char) -> (r: Option<&'static str>)
    ensures
        error::option_view(r) == xml::text_entity(c),
{
    if c == '&' {
        Some("amp")
    } else if c == '<' {
        Some("lt")
    } else if c == '>' {
        Some("gt")
    } else if c == '\r' {
        Some("#xD")
    } else {
        None
    }
}

/// Appends the reference to an entity.
fn push_reference(out: &mut String, entity: &str)
    ensures
        final(out)@ == old(out)@ + xml::reference(entity@),
{
    out.push('&');
    out.append(entity);
    out.push(';');
    assert(out@ =~= old(out)@ + xml::reference(entity@));
}

/// Appends a text escaped for an attribute value.
fn push_attribute_value(out: &mut String, value: &str)
    ensures
        final(out)@ == old(out)@ + xml::escaped_attribute(value@),
{
    let chars = chars_of(value);
    let mut i: usize = 0;
    assert(out@ + xml::escaped_attribute(value@.take(0)) =~= out@);
    while i < chars.len()
        invariant
            i <= chars@.len(),
            chars@ == value@,
            out@ == old(out)@ + xml::escaped_attribute(value@.take(i as int)),
        decreases chars@.len() - i,
    {
        assert(value@.take(i + 1).drop_last() =~= value@.take(i as int));
        match entity_in_attribute(chars[i]) {
            Some(entity) => {
                push_reference(out, entity);
            },
            None => {
                out.push(chars[i]);
            },
        }
        assert(out@ =~= old(out)@ + xml::escaped_attribute(value@.take(i + 1)));
        i = i + 1;
    }
    assert(value@.take(value@.len() as int) =~= value@);
}

/// Appends a text escaped for character data.
fn push_text(out: &mut String, text: &str)
    ensures
        final(out)@ == old(out)@ + xml::escaped_text(text@),
{
    let chars = chars_of(text);
    let mut i: usize = 0;
    assert(text@.skip(0) =~= text@);
    while i < chars.len()
        invariant
            i <= chars@.len(),
            chars@ == text@,
            old(out)@ + xml::escaped_text(text@) == out@ + xml::escaped_text(
                text@.skip(i as int),
            ),
        decreases chars@.len() - i,
    {
        let ghost before = out@;
        assert(text@.skip(i as int).drop_first() =~= text@.skip(i + 1));
        match entity_in_text(chars[i]) {
            Some(entity) => {
                push_reference(out, entity);
            },
            None => {
                out.push(chars[i]);
            },
        }
        assert(out@ + xml::escaped_text(text@.skip(i + 1)) =~= before + xml::escaped_text(
            text@.skip(i as int),
        ));
        i = i + 1;
    }
    assert(xml::escaped_text(text@.skip(text@.len() as int)) =~= Seq::<char>::empty());
    assert(out@ + Seq::<char>::empty() =~= out@);
}

/// Appends one attribute.
fn push_attribute(out: &mut String, key: &str, value: &str)
    ensures
        final(out)@ == old(out)@ + xml::attribute_text(key@, xml::escaped_attribute(value@)),
{
    out.push(' ');
    out.append(key);
    out.push('=');
    out.push('"');
    push_attribute_value(out, value);
    out.push('"');
    assert(out@ =~= old(out)@ + xml::attribute_text(key@, xml::escaped_attribute(value@)));
}

/// Appends the end tag of an element.
fn push_end_tag(out: &mut String, name: &str)
    ensures
        final(out)@ == old(out)@ + end_tag(name@),
{
    out.push('<');
    out.push('/');
    out.append(name);
    out.push('>');
    assert(out@ =~= old(out)@ + end_tag(name@));
}

/// Appending an attribute to a list appends its text.
proof fn lemma_attributes_push(attrs: Seq<(Seq<char>, Seq<char>)>, key: Seq<char>, value: Seq<char>)
    ensures
        xml::attributes_text(escaped_attrs(attrs.push((key, value)))) == xml::attributes_text(
            escaped_attrs(attrs),
        ) + xml::attribute_text(key, xml::escaped_attribute(value)),
{
    let after = escaped_attrs(attrs.push((key, value)));
    assert(after.drop_last() =~= escaped_attrs(attrs));
    assert(after.last() == (key, xml::escaped_attribute(value)));
}

// ---------------------------------------------------------------------------------------------
// Namespaces of a graph
// ---------------------------------------------------------------------------------------------

/// A list of URIs with one more, if it is not among them and needs a declaration.
pub open spec fn with_uri(uris: Seq<Seq<char>>, uri: Seq<char>) -> Seq<Seq<char>> {
    if uri == RDF_NAMESPACE@ || uri == XML_NAMESPACE@ || uris.contains(uri) {
        uris
    } else {
        uris.push(uri)
    }
}

/// A list of URIs with those that a property uses.
pub open spec fn with_property_uris(uris: Seq<Seq<char>>, p: PropertyView) -> Seq<Seq<char>>
    decreases p,
{
    with_value_uris(with_uris_of(with_uri(uris, p.namespace), p.qualifiers), p.value)
}

/// A list of URIs with those that some properties use.
pub open spec fn with_uris_of(uris: Seq<Seq<char>>, s: Seq<PropertyView>) -> Seq<Seq<char>>
    decreases s,
{
    if s.len() == 0 {
        uris
    } else {
        with_uris_of(with_property_uris(uris, s[0]), s.drop_first())
    }
}

/// A list of URIs with those that a value uses.
pub open spec fn with_value_uris(uris: Seq<Seq<char>>, v: ValueView) -> Seq<Seq<char>>
    decreases v,
{
    match v {
        ValueView::Structured(fields) => with_uris_of(uris, fields),
        ValueView::Array(_, items) => with_item_uris(uris, items),
        _ => uris,
    }
}

/// A list of URIs with those that some items use.
pub open spec fn with_item_uris(uris: Seq<Seq<char>>, s: Seq<ItemView>) -> Seq<Seq<char>>
    decreases s,
{
    if s.len() == 0 {
        uris
    } else {
        with_item_uris(
            with_value_uris(with_uris_of(uris, s[0].qualifiers), s[0].value),
            s.drop_first(),
        )
    }
}

/// The mathematical form of a list of texts.
pub open spec fn texts_view(texts: Seq<String>) -> Seq<Seq<char>> {
    texts.map_values(|t: String| t@)
}

/// Adds a URI that needs a declaration.
fn add_uri(uris: &mut Vec<String>, uri: &str)
    ensures
        texts_view(final(uris)@) == with_uri(texts_view(old(uris)@), uri@),
{
    if same_text(uri, RDF_NAMESPACE) || same_text(uri, XML_NAMESPACE) {
        return;
    }
    let ghost all = texts_view(uris@);
    let mut i: usize = 0;
    while i < uris.len()
        invariant
            i <= uris@.len(),
            all == texts_view(uris@),
            *uris == *old(uris),
            uri@ != RDF_NAMESPACE@,
            uri@ != XML_NAMESPACE@,
            forall|j: int| 0 <= j < i ==> #[trigger] all[j] != uri@,
        decreases uris@.len() - i,
    {
        if same_text(uris[i].as_str(), uri) {
            assert(all[i as int] == uri@);
            return;
        }
        i = i + 1;
    }
    let text = uri.to_owned();
    uris.push(text);
    assert(texts_view(uris@) =~= all.push(uri@));
}

/// Adds the URIs that a property uses.
fn add_property_uris(uris: &mut Vec<String>, p: &XmpProperty)
    ensures
        texts_view(final(uris)@) == with_property_uris(texts_view(old(uris)@), p@),
    decreases *p,
{
    add_uri(uris, p.namespace.as_str());
    add_uris_of(uris, &p.qualifiers);
    add_value_uris(uris, &p.value);
}

/// Adds the URIs that some properties use.
fn add_uris_of(uris: &mut Vec<String>, s: &Vec<XmpProperty>)
    ensures
        texts_view(final(uris)@) == with_uris_of(
            texts_view(old(uris)@),
            model::properties_view(s@),
        ),
    decreases *s,
{
    let ghost all = model::properties_view(s@);
    let ghost start = texts_view(uris@);
    proof {
        model::lemma_properties_view(s@);
        assert(all.skip(0) =~= all);
    }
    let mut i: usize = 0;
    while i < s.len()
        invariant
            i <= s@.len() == all.len(),
            all == model::properties_view(s@),
            with_uris_of(start, all) == with_uris_of(texts_view(uris@), all.skip(i as int)),
        decreases s@.len() - i,
    {
        proof {
            model::lemma_properties_view(s@);
            assert(all.skip(i as int)[0] == model::property_view(s@[i as int]));
            assert(all.skip(i as int).drop_first() =~= all.skip(i + 1));
        }
        add_property_uris(uris, &s[i]);
        i = i + 1;
    }
    assert(all.skip(all.len() as int).len() == 0);
}

/// Adds the URIs that a value uses.
fn add_value_uris(uris: &mut Vec<String>, v: &XmpValue)
    ensures
        texts_view(final(uris)@) == with_value_uris(texts_view(old(uris)@), v@),
    decreases *v,
{
    match v {
        XmpValue::Simple(_) | XmpValue::Uri(_) => {},
        XmpValue::Structured(fields) => {
            add_uris_of(uris, fields);
        },
        XmpValue::Array(XmpArray::Bag(items)) => {
            add_item_uris(uris, items);
        },
        XmpValue::Array(XmpArray::Sequence(items)) => {
            add_item_uris(uris, items);
        },
        XmpValue::Array(XmpArray::Alt(items)) => {
            add_item_uris(uris, items);
        },
    }
}

/// Adds the URIs that some items use.
fn add_item_uris(uris: &mut Vec<String>, s: &Vec<XmpItem>)
    ensures
        texts_view(final(uris)@) == with_item_uris(texts_view(old(uris)@), model::items_view(s@)),
    decreases *s,
{
    let ghost all = model::items_view(s@);
    let ghost start = texts_view(uris@);
    proof {
        model::lemma_items_view(s@);
        assert(all.skip(0) =~= all);
    }
    let mut i: usize = 0;
    while i < s.len()
        invariant
            i <= s@.len() == all.len(),
            all == model::items_view(s@),
            with_item_uris(start, all) == with_item_uris(texts_view(uris@), all.skip(i as int)),
        decreases s@.len() - i,
    {
        proof {
            model::lemma_items_view(s@);
            assert(all.skip(i as int)[0] == model::item_view(s@[i as int]));
            assert(all.skip(i as int).drop_first() =~= all.skip(i + 1));
        }
        let item = &s[i];
        add_uris_of(uris, &item.qualifiers);
        add_value_uris(uris, &item.value);
        i = i + 1;
    }
    assert(all.skip(all.len() as int).len() == 0);
}

// ---------------------------------------------------------------------------------------------
// Prefixes
// ---------------------------------------------------------------------------------------------

/// Whether `c` can stand in a prefix: a character of a name other than the colon.
pub open spec fn is_prefix_char(c: char) -> bool {
    xml::is_name_char(c) && c != ':'
}

/// Whether a text can serve as a prefix: characters of a name without a colon, the first of them
/// no digit, `-` or `.`, and not beginning with the letters `xml`, which are reserved.
pub open spec fn is_valid_prefix(prefix: Seq<char>) -> bool {
    &&& prefix.len() > 0
    &&& forall|i: int| 0 <= i < prefix.len() ==> is_prefix_char(#[trigger] prefix[i])
    &&& !('0' <= prefix[0] <= '9') && prefix[0] != '-' && prefix[0] != '.'
    &&& !"xml"@.is_prefix_of(text::lower_text(prefix))
}

/// Whether a prefix is reserved by the writer or given to a namespace already.
pub open spec fn is_taken(table: Seq<NamespaceView>, prefix: Seq<char>) -> bool {
    ||| prefix == "rdf"@
    ||| prefix == "x"@
    ||| exists|i: int| 0 <= i < table.len() && (#[trigger] table[i]).prefix == prefix
}

/// The first registered prefix at or after `from` for a namespace that can be given to it.
pub open spec fn registered_from(
    registered: Seq<NamespaceView>,
    table: Seq<NamespaceView>,
    uri: Seq<char>,
    from: int,
) -> Option<Seq<char>>
    decreases registered.len() - from,
{
    if from < 0 || from >= registered.len() {
        None
    } else if registered[from].uri == uri && is_valid_prefix(registered[from].prefix) && !is_taken(
        table,
        registered[from].prefix,
    ) {
        Some(registered[from].prefix)
    } else {
        registered_from(registered, table, uri, from + 1)
    }
}

/// The conventional prefix of a namespace.
pub open spec fn conventional_prefix(uri: Seq<char>) -> Option<Seq<char>> {
    if uri == WellKnownNs::DublinCore.spec_uri()@ {
        Some(WellKnownNs::DublinCore.spec_prefix()@)
    } else if uri == WellKnownNs::Xmp.spec_uri()@ {
        Some(WellKnownNs::Xmp.spec_prefix()@)
    } else if uri == WellKnownNs::XmpRights.spec_uri()@ {
        Some(WellKnownNs::XmpRights.spec_prefix()@)
    } else if uri == WellKnownNs::XmpMm.spec_uri()@ {
        Some(WellKnownNs::XmpMm.spec_prefix()@)
    } else if uri == WellKnownNs::Pdf.spec_uri()@ {
        Some(WellKnownNs::Pdf.spec_prefix()@)
    } else if uri == WellKnownNs::Photoshop.spec_uri()@ {
        Some(WellKnownNs::Photoshop.spec_prefix()@)
    } else if uri == WellKnownNs::Tiff.spec_uri()@ {
        Some(WellKnownNs::Tiff.spec_prefix()@)
    } else if uri == WellKnownNs::Exif.spec_uri()@ {
        Some(WellKnownNs::Exif.spec_prefix()@)
    } else {
        None
    }
}

/// The decimal digits of a number.
pub open spec fn decimal(n: nat) -> Seq<char>
    decreases n,
{
    if n < 10 {
        seq![(0x30 + n) as char]
    } else {
        decimal(n / 10).push((0x30 + n % 10) as char)
    }
}

/// The length of the longest prefix that is taken.
pub open spec fn longest_taken(table: Seq<NamespaceView>) -> nat
    decreases table.len(),
{
    if table.len() == 0 {
        "rdf"@.len() + "x"@.len()
    } else {
        let rest = longest_taken(table.drop_last());
        if table.last().prefix.len() > rest {
            table.last().prefix.len()
        } else {
            rest
        }
    }
}

/// The prefix, or the shortest one that is not taken when underscores are added to it.
pub open spec fn free_prefix(table: Seq<NamespaceView>, prefix: Seq<char>) -> Seq<char>
    decreases longest_taken(table) + 1 - prefix.len(),
{
    if is_taken(table, prefix) {
        proof {
            lemma_longest_taken(table, prefix);
        }
        free_prefix(table, prefix.push('_'))
    } else {
        prefix
    }
}

/// No prefix that is taken is longer than the longest.
pub proof fn lemma_longest_taken(table: Seq<NamespaceView>, prefix: Seq<char>)
    requires
        is_taken(table, prefix),
    ensures
        prefix.len() <= longest_taken(table),
    decreases table.len(),
{
    if table.len() > 0 {
        if prefix == "rdf"@ || prefix == "x"@ {
            assert(is_taken(table.drop_last(), prefix));
            lemma_longest_taken(table.drop_last(), prefix);
        } else {
            let i = choose|i: int| 0 <= i < table.len() && (#[trigger] table[i]).prefix == prefix;
            if i < table.len() - 1 {
                assert(table.drop_last()[i].prefix == prefix);
                assert(is_taken(table.drop_last(), prefix));
                lemma_longest_taken(table.drop_last(), prefix);
            }
        }
    }
}

/// The prefix that a namespace gets: a registered one, else the conventional one, else one made
/// from its number.
pub open spec fn chosen_prefix(
    registered: Seq<NamespaceView>,
    table: Seq<NamespaceView>,
    uri: Seq<char>,
) -> Seq<char> {
    match registered_from(registered, table, uri, 0) {
        Some(prefix) => prefix,
        None => match conventional_prefix(uri) {
            Some(prefix) => free_prefix(table, prefix),
            None => free_prefix(table, "ns"@ + decimal((table.len() + 1) as nat)),
        },
    }
}

/// The table of namespaces with those from the list `uris` added, each with its prefix.
pub open spec fn extended_table(
    registered: Seq<NamespaceView>,
    table: Seq<NamespaceView>,
    uris: Seq<Seq<char>>,
) -> Seq<NamespaceView>
    decreases uris.len(),
{
    if uris.len() == 0 {
        table
    } else {
        extended_table(
            registered,
            table.push(
                NamespaceView {
                    uri: uris[0],
                    prefix: chosen_prefix(registered, table, uris[0]),
                },
            ),
            uris.drop_first(),
        )
    }
}

/// The table of the namespaces of a graph with their prefixes.
pub open spec fn table_of(registered: Seq<NamespaceView>, meta: Seq<PropertyView>) -> Seq<
    NamespaceView,
> {
    extended_table(registered, Seq::empty(), with_uris_of(Seq::empty(), meta))
}

/// The prefix that the table gives to a namespace, from entry `from` on.
pub open spec fn prefix_from(table: Seq<NamespaceView>, uri: Seq<char>, from: int) -> Seq<char>
    decreases table.len() - from,
{
    if from < 0 || from >= table.len() {
        Seq::empty()
    } else if table[from].uri == uri {
        table[from].prefix
    } else {
        prefix_from(table, uri, from + 1)
    }
}

/// A name with the prefix of its namespace.
pub open spec fn qualified_name(
    table: Seq<NamespaceView>,
    uri: Seq<char>,
    name: Seq<char>,
) -> Seq<char> {
    (if uri == RDF_NAMESPACE@ {
        "rdf"@
    } else if uri == XML_NAMESPACE@ {
        "xml"@
    } else {
        prefix_from(table, uri, 0)
    }) + ":"@ + name
}

/// Whether a text can serve as a prefix.
fn check_prefix(prefix: &str) -> (r: bool)
    ensures
        r == is_valid_prefix(prefix@),
{
    let chars = chars_of(prefix);
    if chars.len() == 0 {
        return false;
    }
    let first = chars[0];
    if ('0' <= first && first <= '9') || first == '-' || first == '.' {
        return false;
    }
    let mut i: usize = 0;
    while i < chars.len()
        invariant
            i <= chars@.len(),
            chars@ == prefix@,
            forall|j: int| 0 <= j < i ==> is_prefix_char(#[trigger] prefix@[j]),
        decreases chars@.len() - i,
    {
        let c = chars[i];
        if !(('a' <= c && c <= 'z') || ('A' <= c && c <= 'Z') || ('0' <= c && c <= '9') || c == '-'
            || c == '_' || c == '.' || c >= '\u{80}') {
            assert(!is_prefix_char(prefix@[i as int]));
            return false;
        }
        i = i + 1;
    }
    !begins_with_xml(to_lower_text(prefix).as_str())
}

/// Whether a text begins with the letters `xml`.
fn begins_with_xml(text: &str) -> (r: bool)
    ensures
        r == "xml"@.is_prefix_of(text@),
{
    proof {
        reveal_strlit("xml");
    }
    let chars = chars_of(text);
    let r = chars.len() >= 3 && chars[0] == 'x' && chars[1] == 'm' && chars[2] == 'l';
    proof {
        if r {
            assert("xml"@ =~= text@.subrange(0, 3));
        }
        if "xml"@.is_prefix_of(text@) {
            let lead = text@.subrange(0, 3);
            assert(lead[0] == 'x' && lead[1] == 'm' && lead[2] == 'l');
        }
    }
    r
}

/// Whether a prefix is reserved by the writer or given to a namespace already.
fn check_taken(table: &Vec<Namespace>, prefix: &str) -> (r: bool)
    ensures
        r == is_taken(namespace::namespaces_view(table@), prefix@),
{
    if same_text(prefix, "rdf") || same_text(prefix, "x") {
        return true;
    }
    let ghost entries = namespace::namespaces_view(table@);
    let mut i: usize = 0;
    while i < table.len()
        invariant
            i <= table@.len() == entries.len(),
            entries == namespace::namespaces_view(table@),
            prefix@ != "rdf"@,
            prefix@ != "x"@,
            forall|j: int| 0 <= j < i ==> (#[trigger] entries[j]).prefix != prefix@,
        decreases table@.len() - i,
    {
        assert(entries[i as int] == table@[i as int]@);
        if same_text(table[i].prefix.as_str(), prefix) {
            return true;
        }
        i = i + 1;
    }
    false
}

/// The first registered prefix for a namespace that can be given to it.
fn find_registered(registered: &Vec<Namespace>, table: &Vec<Namespace>, uri: &str) -> (r: Option<
    String,
>)
    ensures
        error::option_view(r) == registered_from(
            namespace::namespaces_view(registered@),
            namespace::namespaces_view(table@),
            uri@,
            0,
        ),
{
    let ghost all = namespace::namespaces_view(registered@);
    let ghost entries = namespace::namespaces_view(table@);
    let mut i: usize = 0;
    while i < registered.len()
        invariant
            i <= registered@.len() == all.len(),
            all == namespace::namespaces_view(registered@),
            entries == namespace::namespaces_view(table@),
            registered_from(all, entries, uri@, 0) == registered_from(
                all,
                entries,
                uri@,
                i as int,
            ),
        decreases registered@.len() - i,
    {
        let n = &registered[i];
        assert(all[i as int] == n@);
        if same_text(n.uri.as_str(), uri) && check_prefix(n.prefix.as_str()) && !check_taken(
            table,
            n.prefix.as_str(),
        ) {
            return Some(n.prefix.clone());
        }
        i = i + 1;
    }
    None
}

/// The conventional prefix of a namespace.
fn find_conventional(uri: &str) -> (r: Option<&'static str>)
    ensures
        error::option_view(r) == conventional_prefix(uri@),
{
    if same_text(uri, WellKnownNs::DublinCore.uri()) {
        Some(WellKnownNs::DublinCore.prefix())
    } else if same_text(uri, WellKnownNs::Xmp.uri()) {
        Some(WellKnownNs::Xmp.prefix())
    } else if same_text(uri, WellKnownNs::XmpRights.uri()) {
        Some(WellKnownNs::XmpRights.prefix())
    } else if same_text(uri, WellKnownNs::XmpMm.uri()) {
        Some(WellKnownNs::XmpMm.prefix())
    } else if same_text(uri, WellKnownNs::Pdf.uri()) {
        Some(WellKnownNs::Pdf.prefix())
    } else if same_text(uri, WellKnownNs::Photoshop.uri()) {
        Some(WellKnownNs::Photoshop.prefix())
    } else if same_text(uri, WellKnownNs::Tiff.uri()) {
        Some(WellKnownNs::Tiff.prefix())
    } else if same_text(uri, WellKnownNs::Exif.uri()) {
        Some(WellKnownNs::Exif.prefix())
    } else {
        None
    }
}

/// The decimal digits of a number.
fn decimal_text(n: usize) -> (r: String)
    ensures
        r@ == decimal(n as nat),
    decreases n,
{
    let digit = (0x30 + (n % 10) as u8) as char;
    let mut text = if n < 10 {
        String::new()
    } else {
        decimal_text(n / 10)
    };
    text.push(digit);
    assert(n < 10 ==> text@ =~= decimal(n as nat));
    text
}

/// The prefix, or the shortest one that is not taken when underscores are added to it.
fn make_free(table: &Vec<Namespace>, prefix: String) -> (r: String)
    ensures
        r@ == free_prefix(namespace::namespaces_view(table@), prefix@),
{
    let ghost entries = namespace::namespaces_view(table@);
    let mut candidate = prefix;
    while check_taken(table, candidate.as_str())
        invariant
            entries == namespace::namespaces_view(table@),
            free_prefix(entries, prefix@) == free_prefix(entries, candidate@),
        decreases longest_taken(entries) + 1 - candidate@.len(),
    {
        proof {
            lemma_longest_taken(entries, candidate@);
        }
        candidate.push('_');
    }
    candidate
}

/// The prefix that a namespace gets.
fn choose_prefix(registered: &Vec<Namespace>, table: &Vec<Namespace>, uri: &str) -> (r: String)
    requires
        table@.len() < usize::MAX,
    ensures
        r@ == chosen_prefix(
            namespace::namespaces_view(registered@),
            namespace::namespaces_view(table@),
            uri@,
        ),
{
    match find_registered(registered, table, uri) {
        Some(prefix) => prefix,
        None => match find_conventional(uri) {
            Some(prefix) => make_free(table, prefix.to_owned()),
            None => make_free(table, join2("ns", decimal_text(table.len() + 1).as_str())),
        },
    }
}

/// The table of the namespaces of a graph with their prefixes.
fn make_table(registered: &Vec<Namespace>, meta: &XmpMeta) -> (r: Vec<Namespace>)
    ensures
        namespace::namespaces_view(r@) == table_of(
            namespace::namespaces_view(registered@),
            meta@,
        ),
{
    let ghost all_registered = namespace::namespaces_view(registered@);
    let mut uris: Vec<String> = Vec::new();
    assert(texts_view(uris@) =~= Seq::<Seq<char>>::empty());
    add_uris_of(&mut uris, &meta.properties);
    let ghost all = texts_view(uris@);
    let length: usize = uris.len();
    let mut table: Vec<Namespace> = Vec::new();
    let mut i: usize = 0;
    proof {
        assert(namespace::namespaces_view(table@) =~= Seq::<NamespaceView>::empty());
        assert(all.skip(0) =~= all);
    }
    while i < uris.len()
        invariant
            i <= uris@.len() == all.len(),
            length == uris@.len(),
            table@.len() == i,
            all == texts_view(uris@),
            all_registered == namespace::namespaces_view(registered@),
            extended_table(all_registered, Seq::empty(), all) == extended_table(
                all_registered,
                namespace::namespaces_view(table@),
                all.skip(i as int),
            ),
        decreases uris@.len() - i,
    {
        let ghost before = table@;
        proof {
            assert(all.skip(i as int)[0] == uris@[i as int]@);
            assert(all.skip(i as int).drop_first() =~= all.skip(i + 1));
        }
        let prefix = choose_prefix(registered, &table, uris[i].as_str());
        let entry = Namespace { uri: uris[i].clone(), prefix };
        table.push(entry);
        assert(namespace::namespaces_view(table@) =~= namespace::namespaces_view(before).push(
            entry@,
        ));
        i = i + 1;
    }
    assert(all.skip(all.len() as int).len() == 0);
    table
}

/// A name with the prefix of its namespace.
fn qualify(table: &Vec<Namespace>, uri: &str, name: &str) -> (r: String)
    ensures
        r@ == qualified_name(namespace::namespaces_view(table@), uri@, name@),
{
    if same_text(uri, RDF_NAMESPACE) {
        return join3("rdf", ":", name);
    }
    if same_text(uri, XML_NAMESPACE) {
        return join3("xml", ":", name);
    }
    let ghost entries = namespace::namespaces_view(table@);
    let mut i: usize = 0;
    while i < table.len()
        invariant
            i <= table@.len() == entries.len(),
            entries == namespace::namespaces_view(table@),
            uri@ != RDF_NAMESPACE@,
            uri@ != XML_NAMESPACE@,
            prefix_from(entries, uri@, 0) == prefix_from(entries, uri@, i as int),
        decreases table@.len() - i,
    {
        assert(entries[i as int] == table@[i as int]@);
        if same_text(table[i].uri.as_str(), uri) {
            return join3(table[i].prefix.as_str(), ":", name);
        }
        i = i + 1;
    }
    let empty = String::new();
    join3(empty.as_str(), ":", name)
}

// ---------------------------------------------------------------------------------------------
// The written form of a graph
// ---------------------------------------------------------------------------------------------

/// What an element holds for a value.
pub struct Content {
    /// Attributes that the value needs.
    pub attrs: Seq<(Seq<char>, Seq<char>)>,
    /// Character data.
    pub text: Seq<char>,
    /// Child elements.
    pub children: Seq<Written>,
}

/// The language that comes first among qualifiers. It is written as an attribute.
pub open spec fn lead_language(qualifiers: Seq<PropertyView>) -> Option<Seq<char>> {
    if qualifiers.len() > 0 && model::is_named(qualifiers[0], XML_NAMESPACE@, "lang"@)
        && qualifiers[0].qualifiers.len() == 0 {
        model::simple_text(qualifiers[0].value)
    } else {
        None
    }
}

/// The number of qualifiers that are written as an attribute.
pub open spec fn lead_count(qualifiers: Seq<PropertyView>) -> int {
    if lead_language(qualifiers) is Some {
        1
    } else {
        0
    }
}

/// The attribute that gives a language.
pub open spec fn language_attrs(lang: Option<Seq<char>>) -> Seq<(Seq<char>, Seq<char>)> {
    match lang {
        Some(lang) => seq![("xml:lang"@, lang)],
        None => Seq::empty(),
    }
}

/// An element that holds a value without general qualifiers.
pub open spec fn value_element(
    name: Seq<char>,
    lang: Option<Seq<char>>,
    content: Content,
) -> Written {
    Written {
        name,
        attrs: language_attrs(lang) + content.attrs,
        text: content.text,
        children: content.children,
    }
}

/// An element that only holds other elements.
pub open spec fn holder(
    name: Seq<char>,
    attrs: Seq<(Seq<char>, Seq<char>)>,
    children: Seq<Written>,
) -> Written {
    Written { name, attrs, text: Seq::empty(), children }
}

/// An element that holds a value with general qualifiers, which stand beside the value in an
/// `rdf:Description`.
pub open spec fn qualified_element(
    name: Seq<char>,
    lang: Option<Seq<char>>,
    content: Content,
    general: Seq<Written>,
) -> Written {
    if general.len() == 0 {
        value_element(name, lang, content)
    } else {
        holder(
            name,
            language_attrs(lang),
            seq![
                holder(
                    "rdf:Description"@,
                    Seq::empty(),
                    seq![value_element("rdf:value"@, None, content)] + general,
                ),
            ],
        )
    }
}

/// The name of the container of an array.
pub open spec fn container_name(kind: ArrayKind) -> Seq<char> {
    match kind {
        ArrayKind::Bag => "rdf:Bag"@,
        ArrayKind::Sequence => "rdf:Seq"@,
        ArrayKind::Alt => "rdf:Alt"@,
    }
}

/// What an element holds for a value.
pub open spec fn content_of(table: Seq<NamespaceView>, value: ValueView) -> Content
    decreases value,
{
    match value {
        ValueView::Simple(text) => Content {
            attrs: Seq::empty(),
            text,
            children: Seq::empty(),
        },
        ValueView::Uri(uri) => Content {
            attrs: seq![("rdf:resource"@, uri)],
            text: Seq::empty(),
            children: Seq::empty(),
        },
        ValueView::Structured(fields) => Content {
            attrs: seq![("rdf:parseType"@, "Resource"@)],
            text: Seq::empty(),
            children: written_all(table, fields),
        },
        ValueView::Array(kind, items) => Content {
            attrs: Seq::empty(),
            text: Seq::empty(),
            children: seq![
                holder(container_name(kind), Seq::empty(), written_items(table, items)),
            ],
        },
    }
}

/// The written form of a property.
pub open spec fn written(table: Seq<NamespaceView>, p: PropertyView) -> Written
    decreases p,
{
    qualified_element(
        qualified_name(table, p.namespace, p.name),
        lead_language(p.qualifiers),
        content_of(table, p.value),
        if lead_count(p.qualifiers) == 1 {
            written_all(table, p.qualifiers.drop_first())
        } else {
            written_all(table, p.qualifiers)
        },
    )
}

/// The written forms of some properties.
pub open spec fn written_all(table: Seq<NamespaceView>, s: Seq<PropertyView>) -> Seq<Written>
    decreases s,
{
    if s.len() == 0 {
        Seq::empty()
    } else {
        seq![written(table, s[0])] + written_all(table, s.drop_first())
    }
}

/// The written form of an item.
pub open spec fn written_item(table: Seq<NamespaceView>, item: ItemView) -> Written
    decreases item,
{
    qualified_element(
        "rdf:li"@,
        lead_language(item.qualifiers),
        content_of(table, item.value),
        if lead_count(item.qualifiers) == 1 {
            written_all(table, item.qualifiers.drop_first())
        } else {
            written_all(table, item.qualifiers)
        },
    )
}

/// The written forms of some items.
pub open spec fn written_items(table: Seq<NamespaceView>, s: Seq<ItemView>) -> Seq<Written>
    decreases s,
{
    if s.len() == 0 {
        Seq::empty()
    } else {
        seq![written_item(table, s[0])] + written_items(table, s.drop_first())
    }
}

/// The attributes that declare the namespaces of a table.
pub open spec fn declaration_attrs(table: Seq<NamespaceView>) -> Seq<(Seq<char>, Seq<char>)> {
    table.map_values(|n: NamespaceView| ("xmlns:"@ + n.prefix, n.uri))
}

/// The written form of a graph.
pub open spec fn body_element(
    registered: Seq<NamespaceView>,
    meta: Seq<PropertyView>,
    wrap: bool,
) -> Written {
    let table = table_of(registered, meta);
    let empty = Seq::<char>::empty();
    let description = holder(
        "rdf:Description"@,
        seq![("rdf:about"@, empty)] + declaration_attrs(table),
        written_all(table, meta),
    );
    let rdf = holder("rdf:RDF"@, seq![("xmlns:rdf"@, RDF_NAMESPACE@)], seq![description]);
    if wrap {
        holder("x:xmpmeta"@, seq![("xmlns:x"@, XMPMETA_NAMESPACE@)], seq![rdf])
    } else {
        rdf
    }
}

// ---------------------------------------------------------------------------------------------
// Writing
// ---------------------------------------------------------------------------------------------

/// Appends the beginning of a start tag: its name and the attribute that gives a language.
fn push_tag_start(out: &mut String, name: &str, lang: Option<&str>)
    ensures
        final(out)@ == old(out)@ + seq!['<'] + name@ + xml::attributes_text(
            escaped_attrs(language_attrs(error::option_view(lang))),
        ),
{
    out.push('<');
    out.append(name);
    match lang {
        Some(lang) => {
            proof {
                let none = Seq::<(Seq<char>, Seq<char>)>::empty();
                lemma_attributes_push(none, "xml:lang"@, lang@);
                assert(none.push(("xml:lang"@, lang@)) =~= language_attrs(Some(lang@)));
                assert(escaped_attrs(none) =~= none);
            }
            push_attribute(out, "xml:lang", lang);
        },
        None => {
            assert(escaped_attrs(language_attrs(None)) =~= Seq::empty());
        },
    }
    assert(out@ =~= old(out)@ + seq!['<'] + name@ + xml::attributes_text(
        escaped_attrs(language_attrs(error::option_view(lang))),
    ));
}

/// Appends a start tag without attributes.
fn push_plain_tag(out: &mut String, name: &str)
    ensures
        final(out)@ == old(out)@ + start_tag(
            holder(name@, Seq::empty(), Seq::empty()),
        ),
{
    out.push('<');
    out.append(name);
    out.push('>');
    proof {
        let none = Seq::<(Seq<char>, Seq<char>)>::empty();
        assert(escaped_attrs(none) =~= none);
        assert(out@ =~= old(out)@ + start_tag(holder(name@, Seq::empty(), Seq::empty())));
    }
}

/// Appends an element that holds a value without general qualifiers.
#[verifier::spinoff_prover]
#[verifier::rlimit(60)]
fn write_value_element(
    out: &mut String,
    table: &Vec<Namespace>,
    name: &str,
    lang: Option<&str>,
    value: &XmpValue,
)
    ensures
        final(out)@ == old(out)@ + rendered(
            value_element(
                name@,
                error::option_view(lang),
                content_of(namespace::namespaces_view(table@), value@),
            ),
        ),
    decreases *value,
{
    let ghost entries = namespace::namespaces_view(table@);
    let ghost content = content_of(entries, value@);
    let ghost element = value_element(name@, error::option_view(lang), content);
    let ghost lead = language_attrs(error::option_view(lang));
    let ghost none = Seq::<char>::empty();
    push_tag_start(out, name, lang);
    match value {
        XmpValue::Simple(text) => {
            assert(element.attrs =~= lead);
            out.push('>');
            push_text(out, text.as_str());
            assert(rendered_all(element.children) =~= none);
        },
        XmpValue::Uri(uri) => {
            proof {
                lemma_attributes_push(lead, "rdf:resource"@, uri@);
                assert(element.attrs =~= lead.push(("rdf:resource"@, uri@)));
            }
            push_attribute(out, "rdf:resource", uri.as_str());
            out.push('>');
            assert(rendered_all(element.children) =~= none);
        },
        XmpValue::Structured(fields) => {
            proof {
                lemma_attributes_push(lead, "rdf:parseType"@, "Resource"@);
                assert(element.attrs =~= lead.push(("rdf:parseType"@, "Resource"@)));
            }
            push_attribute(out, "rdf:parseType", "Resource");
            out.push('>');
            write_properties(out, table, fields, 0);
            assert(model::properties_view(fields@).skip(0) =~= model::properties_view(fields@));
        },
        XmpValue::Array(XmpArray::Bag(items)) => {
            assert(element.attrs =~= lead);
            out.push('>');
            write_container(out, table, "rdf:Bag", items);
        },
        XmpValue::Array(XmpArray::Sequence(items)) => {
            assert(element.attrs =~= lead);
            out.push('>');
            write_container(out, table, "rdf:Seq", items);
        },
        XmpValue::Array(XmpArray::Alt(items)) => {
            assert(element.attrs =~= lead);
            out.push('>');
            write_container(out, table, "rdf:Alt", items);
        },
    }
    proof {
        if let ValueView::Array(kind, items) = value@ {
            lemma_rendered_one(
                holder(container_name(kind), Seq::empty(), written_items(entries, items)),
            );
        }
        assert(out@ =~= old(out)@ + (start_tag(element) + xml::escaped_text(element.text)
            + rendered_all(element.children)));
    }
    push_end_tag(out, name);
    assert(out@ =~= old(out)@ + rendered(element));
}

/// Appends the container of an array.
fn write_container(out: &mut String, table: &Vec<Namespace>, name: &str, items: &Vec<XmpItem>)
    ensures
        final(out)@ == old(out)@ + rendered(
            holder(
                name@,
                Seq::empty(),
                written_items(namespace::namespaces_view(table@), model::items_view(items@)),
            ),
        ),
    decreases *items,
{
    let ghost entries = namespace::namespaces_view(table@);
    let ghost all = model::items_view(items@);
    let ghost element = holder(name@, Seq::empty(), written_items(entries, all));
    push_plain_tag(out, name);
    let ghost opened = out@;
    let mut i: usize = 0;
    proof {
        model::lemma_items_view(items@);
        assert(all.skip(0) =~= all);
    }
    while i < items.len()
        invariant
            i <= items@.len() == all.len(),
            all == model::items_view(items@),
            entries == namespace::namespaces_view(table@),
            opened + rendered_all(written_items(entries, all)) == out@ + rendered_all(
                written_items(entries, all.skip(i as int)),
            ),
        decreases items@.len() - i,
    {
        let item = &items[i];
        let ghost before = out@;
        proof {
            model::lemma_items_view(items@);
            assert(all.skip(i as int)[0] == item@);
            assert(all.skip(i as int).drop_first() =~= all.skip(i + 1));
            let here = written_items(entries, all.skip(i as int));
            assert(here.drop_first() =~= written_items(entries, all.skip(i + 1)));
        }
        write_item(out, table, item);
        assert(out@ + rendered_all(written_items(entries, all.skip(i + 1))) =~= before
            + rendered_all(written_items(entries, all.skip(i as int))));
        i = i + 1;
    }
    proof {
        assert(all.skip(all.len() as int).len() == 0);
        assert(out@ =~= opened + rendered_all(written_items(entries, all)));
    }
    push_end_tag(out, name);
    assert(out@ =~= old(out)@ + rendered(element));
}

/// The language that comes first among qualifiers.
fn leading_language(qualifiers: &Vec<XmpProperty>) -> (r: Option<&str>)
    ensures
        error::option_view(r) == lead_language(model::properties_view(qualifiers@)),
{
    proof {
        model::lemma_properties_view(qualifiers@);
    }
    if qualifiers.len() == 0 {
        return None;
    }
    let first = &qualifiers[0];
    proof {
        assert(model::properties_view(qualifiers@)[0] == first@);
        model::lemma_properties_view(first.qualifiers@);
    }
    if same_text(first.namespace.as_str(), XML_NAMESPACE) && same_text(first.name.as_str(), "lang")
        && first.qualifiers.len() == 0 {
        first.text()
    } else {
        None
    }
}

/// The text of a single element in a list.
proof fn lemma_rendered_one(w: Written)
    ensures
        rendered_all(seq![w]) == rendered(w),
{
    reveal_with_fuel(rendered_all, 2);
    assert(seq![w].drop_first() =~= Seq::<Written>::empty());
    assert(rendered_all(seq![w]) =~= rendered(w));
}

/// The text of an element that holds a value with general qualifiers.
proof fn lemma_qualified_rendered(
    name: Seq<char>,
    lang: Option<Seq<char>>,
    content: Content,
    general: Seq<Written>,
)
    requires
        general.len() > 0,
    ensures
        rendered(qualified_element(name, lang, content, general)) == seq!['<'] + name
            + xml::attributes_text(escaped_attrs(language_attrs(lang))) + seq!['>'] + start_tag(
            holder("rdf:Description"@, Seq::empty(), Seq::empty()),
        ) + rendered(value_element("rdf:value"@, None, content)) + rendered_all(general) + end_tag(
            "rdf:Description"@,
        ) + end_tag(name),
{
    let value = value_element("rdf:value"@, None, content);
    let inner = seq![value] + general;
    let description = holder("rdf:Description"@, Seq::empty(), inner);
    let outer = qualified_element(name, lang, content, general);
    assert(inner.drop_first() =~= general);
    assert(rendered_all(inner) =~= rendered(value) + rendered_all(general));
    assert(xml::escaped_text(Seq::empty()) =~= Seq::<char>::empty());
    lemma_rendered_one(description);
    assert(start_tag(description) == start_tag(
        holder("rdf:Description"@, Seq::empty(), Seq::empty()),
    ));
    assert(outer.children =~= seq![description]);
    assert(rendered(outer) =~= seq!['<'] + name + xml::attributes_text(
        escaped_attrs(language_attrs(lang)),
    ) + seq!['>'] + start_tag(holder("rdf:Description"@, Seq::empty(), Seq::empty())) + rendered(
        value,
    ) + rendered_all(general) + end_tag("rdf:Description"@) + end_tag(name));
}

/// Whether properties are written exactly where there are some.
proof fn lemma_written_all(table: Seq<NamespaceView>, s: Seq<PropertyView>)
    ensures
        written_all(table, s).len() == s.len(),
        forall|i: int| 0 <= i < s.len() ==> #[trigger] written_all(table, s)[i] == written(table, s[i]),
    decreases s.len(),
{
    if s.len() > 0 {
        lemma_written_all(table, s.drop_first());
        assert forall|i: int| 0 <= i < s.len() implies #[trigger] written_all(table, s)[i] == written(
            table,
            s[i],
        ) by {
            if i > 0 {
                assert(written_all(table, s.drop_first())[i - 1] == written(
                    table,
                    s.drop_first()[i - 1],
                ));
            }
        }
    }
}

/// Appends a property.
fn write_property(out: &mut String, table: &Vec<Namespace>, p: &XmpProperty)
    ensures
        final(out)@ == old(out)@ + rendered(
            written(namespace::namespaces_view(table@), p@),
        ),
    decreases *p,
{
    let ghost entries = namespace::namespaces_view(table@);
    let ghost views = p@.qualifiers;
    let name = qualify(table, p.namespace.as_str(), p.name.as_str());
    let lang = leading_language(&p.qualifiers);
    let from: usize = if lang.is_some() {
        1
    } else {
        0
    };
    let ghost general = written_all(entries, views.skip(from as int));
    proof {
        model::lemma_properties_view(p.qualifiers@);
        lemma_written_all(entries, views.skip(from as int));
        assert(views.skip(0) =~= views);
        assert(from == 1 ==> views.skip(1) =~= views.drop_first());
    }
    if p.qualifiers.len() == from {
        write_value_element(out, table, name.as_str(), lang, &p.value);
        return;
    }
    proof {
        lemma_qualified_rendered(
            name@,
            error::option_view(lang),
            content_of(entries, p@.value),
            general,
        );
    }
    push_tag_start(out, name.as_str(), lang);
    out.push('>');
    push_plain_tag(out, "rdf:Description");
    write_value_element(out, table, "rdf:value", None, &p.value);
    write_properties(out, table, &p.qualifiers, from);
    push_end_tag(out, "rdf:Description");
    push_end_tag(out, name.as_str());
    assert(out@ =~= old(out)@ + rendered(written(entries, p@)));
}

/// Appends an item.
fn write_item(out: &mut String, table: &Vec<Namespace>, item: &XmpItem)
    ensures
        final(out)@ == old(out)@ + rendered(
            written_item(namespace::namespaces_view(table@), item@),
        ),
    decreases *item,
{
    let ghost entries = namespace::namespaces_view(table@);
    let ghost views = item@.qualifiers;
    let lang = leading_language(&item.qualifiers);
    let from: usize = if lang.is_some() {
        1
    } else {
        0
    };
    let ghost general = written_all(entries, views.skip(from as int));
    proof {
        model::lemma_properties_view(item.qualifiers@);
        lemma_written_all(entries, views.skip(from as int));
        assert(views.skip(0) =~= views);
        assert(from == 1 ==> views.skip(1) =~= views.drop_first());
    }
    if item.qualifiers.len() == from {
        write_value_element(out, table, "rdf:li", lang, &item.value);
        return;
    }
    proof {
        lemma_qualified_rendered(
            "rdf:li"@,
            error::option_view(lang),
            content_of(entries, item@.value),
            general,
        );
    }
    push_tag_start(out, "rdf:li", lang);
    out.push('>');
    push_plain_tag(out, "rdf:Description");
    write_value_element(out, table, "rdf:value", None, &item.value);
    write_properties(out, table, &item.qualifiers, from);
    push_end_tag(out, "rdf:Description");
    push_end_tag(out, "rdf:li");
    assert(out@ =~= old(out)@ + rendered(written_item(entries, item@)));
}

/// Appends the properties from index `from` on.
fn write_properties(
    out: &mut String,
    table: &Vec<Namespace>,
    properties: &Vec<XmpProperty>,
    from: usize,
)
    requires
        from <= properties@.len(),
    ensures
        final(out)@ == old(out)@ + rendered_all(
            written_all(
                namespace::namespaces_view(table@),
                model::properties_view(properties@).skip(from as int),
            ),
        ),
    decreases *properties,
{
    let ghost entries = namespace::namespaces_view(table@);
    let ghost all = model::properties_view(properties@);
    let ghost start = out@;
    let mut i: usize = from;
    proof {
        model::lemma_properties_view(properties@);
    }
    while i < properties.len()
        invariant
            from <= i <= properties@.len() == all.len(),
            all == model::properties_view(properties@),
            entries == namespace::namespaces_view(table@),
            start + rendered_all(written_all(entries, all.skip(from as int))) == out@
                + rendered_all(written_all(entries, all.skip(i as int))),
        decreases properties@.len() - i,
    {
        let ghost before = out@;
        proof {
            model::lemma_properties_view(properties@);
            assert(all.skip(i as int)[0] == model::property_view(properties@[i as int]));
            assert(all.skip(i as int).drop_first() =~= all.skip(i + 1));
            let here = written_all(entries, all.skip(i as int));
            assert(here.drop_first() =~= written_all(entries, all.skip(i + 1)));
        }
        write_property(out, table, &properties[i]);
        assert(out@ + rendered_all(written_all(entries, all.skip(i + 1))) =~= before + rendered_all(
            written_all(entries, all.skip(i as int)),
        ));
        i = i + 1;
    }
    proof {
        assert(all.skip(all.len() as int).len() == 0);
        assert(out@ =~= start + rendered_all(written_all(entries, all.skip(from as int))));
    }
}

// ---------------------------------------------------------------------------------------------
// Packets
// ---------------------------------------------------------------------------------------------

/// Serializes property graphs to canonical RDF/XML packets.
#[derive(Debug)]
pub struct XmpWriter {
    namespaces: Vec<Namespace>,
    wrap_xmpmeta: bool,
    writable: bool,
    padding: usize,
}

/// The mathematical form of an [`XmpWriter`].
pub struct WriterView {
    /// Registered namespaces.
    pub namespaces: Seq<NamespaceView>,
    /// Whether the graph is wrapped in `x:xmpmeta`.
    pub wrap_xmpmeta: bool,
    /// Whether the packet is writable in place.
    pub writable: bool,
    /// The number of padding bytes.
    pub padding: nat,
}

impl View for XmpWriter {
    type V = WriterView;

    closed spec fn view(&self) -> WriterView {
        WriterView {
            namespaces: namespace::namespaces_view(self.namespaces@),
            wrap_xmpmeta: self.wrap_xmpmeta,
            writable: self.writable,
            padding: self.padding as nat,
        }
    }
}

/// The number of padding bytes of a packet for which none is asked.
pub const DEFAULT_PADDING: usize = 2048;

/// The text of a graph as a writer serializes it.
pub open spec fn body_text(writer: WriterView, meta: Seq<PropertyView>) -> Seq<char> {
    rendered(body_element(writer.namespaces, meta, writer.wrap_xmpmeta))
}

/// The text of a packet around a graph.
pub open spec fn packet_text(writer: WriterView, meta: Seq<PropertyView>) -> Seq<char> {
    repair::canonical_header() + body_text(writer, meta) + Seq::new(
        writer.padding,
        |i: int| ' ',
    ) + repair::canonical_trailer(writer.writable)
}

impl XmpWriter {
    /// A writer of writable packets with default padding, wrapped in `x:xmpmeta`.
    #[must_use]
    pub fn new() -> (r: Self)
        ensures
            r@ == (WriterView {
                namespaces: Seq::empty(),
                wrap_xmpmeta: true,
                writable: true,
                padding: DEFAULT_PADDING as nat,
            }),
    {
        let writer = XmpWriter {
            namespaces: Vec::new(),
            wrap_xmpmeta: true,
            writable: true,
            padding: DEFAULT_PADDING,
        };
        assert(writer@.namespaces =~= Seq::empty());
        writer
    }

    /// Registers a preferred prefix for a namespace URI.
    ///
    /// The prefix is used where it is a valid one and no other namespace of the graph has it; an
    /// earlier registration comes before a later one.
    #[must_use]
    pub fn with_namespace(self, namespace: Namespace) -> (r: Self)
        ensures
            r@ == (WriterView { namespaces: self@.namespaces.push(namespace@), ..self@ }),
    {
        let mut writer = self;
        writer.namespaces.push(namespace);
        assert(writer@.namespaces =~= self@.namespaces.push(namespace@));
        writer
    }

    /// Sets whether the graph is wrapped in `x:xmpmeta`.
    #[must_use]
    pub fn wrap_xmpmeta(self, yes: bool) -> (r: Self)
        ensures
            r@ == (WriterView { wrap_xmpmeta: yes, ..self@ }),
    {
        let mut writer = self;
        writer.wrap_xmpmeta = yes;
        writer
    }

    /// Sets whether the packet is writable in place.
    #[must_use]
    pub fn writable(self, yes: bool) -> (r: Self)
        ensures
            r@ == (WriterView { writable: yes, ..self@ }),
    {
        let mut writer = self;
        writer.writable = yes;
        writer
    }

    /// Sets the number of padding bytes before the closing instruction.
    #[must_use]
    pub fn padding(self, bytes: usize) -> (r: Self)
        ensures
            r@ == (WriterView { padding: bytes as nat, ..self@ }),
    {
        let mut writer = self;
        writer.padding = bytes;
        writer
    }

    /// Serializes a graph to RDF/XML without a packet wrapper.
    #[must_use]
    pub fn serialize_body(&self, meta: &XmpMeta) -> (r: String)
        ensures
            r@ == body_text(self@, meta@),
    {
        let table = make_table(&self.namespaces, meta);
        let ghost entries = namespace::namespaces_view(table@);
        let ghost children = written_all(entries, meta@);
        let ghost first = seq![("rdf:about"@, Seq::<char>::empty())];
        let ghost description = holder(
            "rdf:Description"@,
            first + declaration_attrs(entries),
            children,
        );
        let ghost rdf = holder(
            "rdf:RDF"@,
            seq![("xmlns:rdf"@, RDF_NAMESPACE@)],
            seq![description],
        );
        let ghost none = Seq::<(Seq<char>, Seq<char>)>::empty();
        let mut out = String::new();
        if self.wrap_xmpmeta {
            push_root_tag(&mut out, "x:xmpmeta", "xmlns:x", XMPMETA_NAMESPACE);
        }
        push_root_tag(&mut out, "rdf:RDF", "xmlns:rdf", RDF_NAMESPACE);
        let ghost before = out@;
        out.append("<rdf:Description");
        let empty = String::new();
        proof {
            lemma_attributes_push(none, "rdf:about"@, empty@);
            assert(none.push(("rdf:about"@, empty@)) =~= first);
            assert(escaped_attrs(none) =~= none);
            assert(first + declaration_attrs(entries).take(0) =~= first);
        }
        push_attribute(&mut out, "rdf:about", empty.as_str());
        let ghost tag = before + "<rdf:Description"@;
        assert(out@ =~= tag + xml::attributes_text(escaped_attrs(first)));
        let mut i: usize = 0;
        while i < table.len()
            invariant
                i <= table@.len() == entries.len(),
                entries == namespace::namespaces_view(table@),
                out@ == tag + xml::attributes_text(
                    escaped_attrs(first + declaration_attrs(entries).take(i as int)),
                ),
            decreases table@.len() - i,
        {
            let entry = &table[i];
            let key = join2("xmlns:", entry.prefix.as_str());
            proof {
                let so_far = first + declaration_attrs(entries).take(i as int);
                assert(entries[i as int] == entry@);
                lemma_attributes_push(so_far, key@, entry@.uri);
                assert(so_far.push((key@, entry@.uri)) =~= first + declaration_attrs(entries).take(
                    i + 1,
                ));
            }
            push_attribute(&mut out, key.as_str(), entry.uri.as_str());
            assert(out@ =~= tag + xml::attributes_text(
                escaped_attrs(first + declaration_attrs(entries).take(i + 1)),
            ));
            i = i + 1;
        }
        out.push('>');
        assert(declaration_attrs(entries).take(entries.len() as int) =~= declaration_attrs(entries));
        proof {
            reveal_strlit("<rdf:Description");
            reveal_strlit("rdf:Description");
            assert("<rdf:Description"@ =~= seq!['<'] + "rdf:Description"@);
            assert(out@ =~= before + start_tag(description));
        }
        write_properties(&mut out, &table, &meta.properties, 0);
        assert(meta@.skip(0) =~= meta@);
        push_end_tag(&mut out, "rdf:Description");
        proof {
            assert(xml::escaped_text(Seq::empty()) =~= Seq::<char>::empty());
            assert(out@ =~= before + rendered(description));
        }
        push_end_tag(&mut out, "rdf:RDF");
        if self.wrap_xmpmeta {
            push_end_tag(&mut out, "x:xmpmeta");
        }
        proof {
            lemma_single_child(rdf, description);
            if self.wrap_xmpmeta {
                let outer = holder(
                    "x:xmpmeta"@,
                    seq![("xmlns:x"@, XMPMETA_NAMESPACE@)],
                    seq![rdf],
                );
                lemma_single_child(outer, rdf);
                assert(out@ =~= rendered(outer));
            } else {
                assert(out@ =~= rendered(rdf));
            }
        }
        out
    }

    /// Serializes a graph to a packet in UTF-8.
    #[must_use]
    pub fn serialize(&self, meta: &XmpMeta) -> (r: Vec<u8>)
        ensures
            r@ == encode_utf8(packet_text(self@, meta@)),
    {
        let header = join5(
            "<?xpacket begin='",
            CANONICAL_BEGIN,
            "' id='",
            CANONICAL_PACKET_ID,
            "'?>",
        );
        let mut out = join2(header.as_str(), self.serialize_body(meta).as_str());
        let ghost start = out@;
        let mut i: usize = 0;
        assert(start + Seq::new(0nat, |j: int| ' ') =~= start);
        while i < self.padding
            invariant
                i <= self.padding,
                out@ == start + Seq::new(i as nat, |j: int| ' '),
            decreases self.padding - i,
        {
            out.push(' ');
            assert(Seq::new(i as nat, |j: int| ' ').push(' ') =~= Seq::new(
                (i + 1) as nat,
                |j: int| ' ',
            ));
            assert(out@ =~= start + Seq::new((i + 1) as nat, |j: int| ' '));
            i = i + 1;
        }
        out.append(
            if self.writable {
                "<?xpacket end='w'?>"
            } else {
                "<?xpacket end='r'?>"
            },
        );
        copy_all(out.as_str().as_bytes())
    }
}

/// The text of an element with one child and nothing else.
proof fn lemma_single_child(outer: Written, inner: Written)
    requires
        outer.text.len() == 0,
        outer.children == seq![inner],
    ensures
        rendered(outer) == start_tag(outer) + rendered(inner) + end_tag(outer.name),
{
    lemma_rendered_one(inner);
    assert(xml::escaped_text(outer.text) =~= Seq::<char>::empty());
    assert(rendered(outer) =~= start_tag(outer) + rendered(inner) + end_tag(outer.name));
}

/// Appends a start tag with one attribute.
fn push_root_tag(out: &mut String, name: &str, key: &str, value: &str)
    ensures
        final(out)@ == old(out)@ + start_tag(
            holder(name@, seq![(key@, value@)], Seq::empty()),
        ),
{
    out.push('<');
    out.append(name);
    proof {
        let none = Seq::<(Seq<char>, Seq<char>)>::empty();
        lemma_attributes_push(none, key@, value@);
        assert(none.push((key@, value@)) =~= seq![(key@, value@)]);
        assert(escaped_attrs(none) =~= none);
    }
    push_attribute(out, key, value);
    out.push('>');
    assert(out@ =~= old(out)@ + start_tag(holder(name@, seq![(key@, value@)], Seq::empty())));
}

impl XmpMeta {
    /// Serializes this graph to a packet with default settings.
    #[must_use]
    pub fn to_packet(&self) -> (r: Vec<u8>)
        ensures
            r@ == encode_utf8(
                packet_text(
                    WriterView {
                        namespaces: Seq::empty(),
                        wrap_xmpmeta: true,
                        writable: true,
                        padding: DEFAULT_PADDING as nat,
                    },
                    self@,
                ),
            ),
    {
        XmpWriter::new().serialize(self)
    }
}

} // verus!
