//! An XMP graph together with the lexical facts needed by validation and editing.

use vstd::prelude::*;
use vstd::string::*;
use vstd::utf8::*;

use crate::encoding;
use crate::error;
use crate::error::{ErrorView, XmpError};
use crate::model;
use crate::model::{PropertyView, XmpMeta, XmpProperty};
use crate::namespace::{RDF_NAMESPACE, XMPMETA_NAMESPACE};
use crate::packet;
use crate::packet::{DecodedXmpPacket, XmpPacket, XmpSourceSpan};
use crate::reader;
use crate::reader::{data_attr_property, is_element, is_text, parse_property, ShapeAttr};
use crate::round_trip;
use crate::shifting;
use crate::spans;
use crate::text;
use crate::text::{same_text, slice_text};
use crate::tree;
use crate::tree::{
    build_tree, copy_option, AttrView, BindingView, Element, ElementView, XmpNamespaceBinding,
};
use crate::writer;
use crate::writer::WriterView;
use crate::xml;

verus! {

/// Lexical form used by a top-level XMP property declaration.
#[derive(Debug, Clone, Copy, PartialEq, Eq, Structural)]
#[non_exhaustive]
pub enum XmpPropertyForm {
    /// An XML attribute on `rdf:Description`.
    Attribute,
    /// A child element of `rdf:Description`.
    Element,
}

/// Source location and lexical name of one top-level XMP property.
#[derive(Debug, PartialEq, Eq)]
pub struct XmpPropertyLocation {
    /// Expanded namespace URI.
    pub namespace: String,
    /// Local property name.
    pub name: String,
    /// Prefix used by this declaration, without the colon.
    pub prefix: Option<String>,
    /// Declaration form.
    pub form: XmpPropertyForm,
    /// Exact element span, or the containing start-tag span for attribute form.
    pub span: XmpSourceSpan,
}

/// The mathematical form of an [`XmpPropertyLocation`].
pub struct LocationView {
    /// See [`XmpPropertyLocation::namespace`].
    pub namespace: Seq<char>,
    /// See [`XmpPropertyLocation::name`].
    pub name: Seq<char>,
    /// See [`XmpPropertyLocation::prefix`].
    pub prefix: Option<Seq<char>>,
    /// See [`XmpPropertyLocation::form`].
    pub form: XmpPropertyForm,
    /// See [`XmpPropertyLocation::span`].
    pub span: XmpSourceSpan,
}

impl View for XmpPropertyLocation {
    type V = LocationView;

    open spec fn view(&self) -> LocationView {
        LocationView {
            namespace: self.namespace@,
            name: self.name@,
            prefix: error::option_view(self.prefix),
            form: self.form,
            span: self.span,
        }
    }
}

impl Clone for XmpPropertyLocation {
    fn clone(&self) -> (r: Self)
        ensures
            r@ == self@,
    {
        XmpPropertyLocation {
            namespace: self.namespace.clone(),
            name: self.name.clone(),
            prefix: copy_option(&self.prefix),
            form: self.form,
            span: self.span,
        }
    }
}

/// The mathematical form of a list of locations.
pub open spec fn locations_view(locations: Seq<XmpPropertyLocation>) -> Seq<LocationView> {
    locations.map_values(|l: XmpPropertyLocation| l@)
}

/// Source and subject spelling of one top-level `rdf:Description`.
#[derive(Debug, PartialEq, Eq)]
pub struct XmpDescriptionLocation {
    /// Full element span.
    pub span: XmpSourceSpan,
    /// Value of `rdf:about` or `rdf:ID`, when either is present.
    pub subject: Option<String>,
    /// Prefix used on the subject attribute.
    pub subject_prefix: Option<String>,
}

/// The mathematical form of an [`XmpDescriptionLocation`].
pub struct DescriptionView {
    /// See [`XmpDescriptionLocation::span`].
    pub span: XmpSourceSpan,
    /// See [`XmpDescriptionLocation::subject`].
    pub subject: Option<Seq<char>>,
    /// See [`XmpDescriptionLocation::subject_prefix`].
    pub subject_prefix: Option<Seq<char>>,
}

impl View for XmpDescriptionLocation {
    type V = DescriptionView;

    open spec fn view(&self) -> DescriptionView {
        DescriptionView {
            span: self.span,
            subject: error::option_view(self.subject),
            subject_prefix: error::option_view(self.subject_prefix),
        }
    }
}

impl Clone for XmpDescriptionLocation {
    fn clone(&self) -> (r: Self)
        ensures
            r@ == self@,
    {
        XmpDescriptionLocation {
            span: self.span,
            subject: copy_option(&self.subject),
            subject_prefix: copy_option(&self.subject_prefix),
        }
    }
}

/// The mathematical form of a list of descriptions.
pub open spec fn descriptions_view(descriptions: Seq<XmpDescriptionLocation>) -> Seq<
    DescriptionView,
> {
    descriptions.map_values(|d: XmpDescriptionLocation| d@)
}

/// An XMP graph together with the lexical facts needed by validation and editing.
#[derive(Debug, PartialEq, Eq)]
pub struct XmpDocument {
    /// Namespace-neutral property graph.
    pub meta: XmpMeta,
    /// Top-level property declarations in document order.
    pub properties: Vec<XmpPropertyLocation>,
    /// Every namespaced XMP data node, including nested structure fields and attributes.
    pub nodes: Vec<XmpPropertyLocation>,
    /// Namespace bindings in document order.
    pub namespaces: Vec<XmpNamespaceBinding>,
    /// Top-level resource descriptions in document order.
    pub descriptions: Vec<XmpDescriptionLocation>,
    /// Prefix used on the `rdf:RDF` element.
    pub rdf_prefix: Option<String>,
    /// Whether `rdf:RDF` is wrapped in an `x:xmpmeta` element by namespace identity.
    pub root_is_xmpmeta: bool,
}

/// The mathematical form of an [`XmpDocument`].
pub struct DocumentView {
    /// See [`XmpDocument::meta`].
    pub meta: Seq<PropertyView>,
    /// See [`XmpDocument::properties`].
    pub properties: Seq<LocationView>,
    /// See [`XmpDocument::nodes`].
    pub nodes: Seq<LocationView>,
    /// See [`XmpDocument::namespaces`].
    pub namespaces: Seq<BindingView>,
    /// See [`XmpDocument::descriptions`].
    pub descriptions: Seq<DescriptionView>,
    /// See [`XmpDocument::rdf_prefix`].
    pub rdf_prefix: Option<Seq<char>>,
    /// See [`XmpDocument::root_is_xmpmeta`].
    pub root_is_xmpmeta: bool,
}

impl View for XmpDocument {
    type V = DocumentView;

    open spec fn view(&self) -> DocumentView {
        DocumentView {
            meta: self.meta@,
            properties: locations_view(self.properties@),
            nodes: locations_view(self.nodes@),
            namespaces: tree::bindings_view(self.namespaces@),
            descriptions: descriptions_view(self.descriptions@),
            rdf_prefix: error::option_view(self.rdf_prefix),
            root_is_xmpmeta: self.root_is_xmpmeta,
        }
    }
}

impl Clone for XmpDocument {
    fn clone(&self) -> (r: Self)
        ensures
            r@ == self@,
    {
        let r = XmpDocument {
            meta: self.meta.clone(),
            properties: self.properties.clone(),
            nodes: self.nodes.clone(),
            namespaces: self.namespaces.clone(),
            descriptions: self.descriptions.clone(),
            rdf_prefix: copy_option(&self.rdf_prefix),
            root_is_xmpmeta: self.root_is_xmpmeta,
        };
        assert(locations_view(r.properties@) =~= locations_view(self.properties@));
        assert(locations_view(r.nodes@) =~= locations_view(self.nodes@));
        assert(tree::bindings_view(r.namespaces@) =~= tree::bindings_view(self.namespaces@));
        assert(descriptions_view(r.descriptions@) =~= descriptions_view(self.descriptions@));
        r
    }
}

// ---------------------------------------------------------------------------------------------
// Places of bindings and data
// ---------------------------------------------------------------------------------------------

/// The namespace bindings of an element and its descendants.
pub open spec fn bindings_in(e: ElementView) -> Seq<BindingView>
    decreases e,
{
    e.bindings + bindings_among(e.children)
}

/// The namespace bindings of some elements and their descendants.
pub open spec fn bindings_among(s: Seq<ElementView>) -> Seq<BindingView>
    decreases s,
{
    if s.len() == 0 {
        Seq::empty()
    } else {
        bindings_among(s.drop_last()) + bindings_in(s.last())
    }
}

/// The shape of an attribute.
pub open spec fn shape_attr(a: AttrView) -> ShapeAttr {
    ShapeAttr { ns: a.ns, local: a.local, value: a.value }
}

/// The locations of the data attributes of an element: its start tag.
pub open spec fn attribute_nodes(e: ElementView, attrs: Seq<AttrView>) -> Seq<LocationView>
    decreases attrs.len(),
{
    if attrs.len() == 0 {
        Seq::empty()
    } else {
        let before = attribute_nodes(e, attrs.drop_last());
        match reader::data_property(shape_attr(attrs.last())) {
            Some(p) => before.push(attribute_location(e, attrs.last(), p)),
            None => before,
        }
    }
}

/// The location of a property in attribute form.
pub open spec fn attribute_location(
    e: ElementView,
    a: AttrView,
    p: PropertyView,
) -> LocationView {
    LocationView {
        namespace: p.namespace,
        name: p.name,
        prefix: a.prefix,
        form: XmpPropertyForm::Attribute,
        span: e.tag,
    }
}

/// The location of an element that holds data: one in a namespace that is neither that of RDF nor
/// that of the packet wrapper.
pub open spec fn element_nodes(e: ElementView) -> Seq<LocationView> {
    match e.ns {
        Some(namespace) => if namespace != RDF_NAMESPACE@ && namespace != XMPMETA_NAMESPACE@ {
            seq![
                LocationView {
                    namespace,
                    name: e.local,
                    prefix: e.prefix,
                    form: XmpPropertyForm::Element,
                    span: e.span,
                },
            ]
        } else {
            Seq::empty()
        },
        None => Seq::empty(),
    }
}

/// The locations of the data attributes of an element and of the data nodes in it.
pub open spec fn nodes_in(e: ElementView) -> Seq<LocationView>
    decreases e,
{
    attribute_nodes(e, e.attrs) + nodes_among(e.children)
}

/// The locations of some elements that hold data and of the data nodes in them.
pub open spec fn nodes_among(s: Seq<ElementView>) -> Seq<LocationView>
    decreases s,
{
    if s.len() == 0 {
        Seq::empty()
    } else {
        nodes_among(s.drop_last()) + element_nodes(s.last()) + nodes_in(s.last())
    }
}

/// Collects the namespace bindings of an element and its descendants.
fn collect_bindings(e: &Element, output: &mut Vec<XmpNamespaceBinding>)
    ensures
        tree::bindings_view(final(output)@) == tree::bindings_view(old(output)@) + bindings_in(e@),
    decreases *e,
{
    let ghost start = tree::bindings_view(output@);
    let mut i: usize = 0;
    assert(start + e@.bindings.take(0) =~= start);
    while i < e.bindings.len()
        invariant
            i <= e.bindings@.len(),
            tree::bindings_view(output@) == start + e@.bindings.take(i as int),
            e@.bindings.len() == e.bindings@.len(),
        decreases e.bindings@.len() - i,
    {
        let ghost before = output@;
        let binding = e.bindings[i].clone();
        output.push(binding);
        proof {
            assert(tree::bindings_view(output@) =~= tree::bindings_view(before).push(binding@));
            assert(e@.bindings[i as int] == e.bindings@[i as int]@);
            assert(start + e@.bindings.take(i + 1) =~= (start + e@.bindings.take(i as int)).push(
                e@.bindings[i as int],
            ));
        }
        i = i + 1;
    }
    let ghost middle = start + e@.bindings;
    assert(e@.bindings.take(e@.bindings.len() as int) =~= e@.bindings);
    let mut k: usize = 0;
    proof {
        tree::lemma_elements_view(e.children@);
        assert(middle + bindings_among(e@.children.take(0)) =~= middle);
    }
    while k < e.children.len()
        invariant
            k <= e.children@.len() == e@.children.len(),
            tree::bindings_view(output@) == middle + bindings_among(e@.children.take(k as int)),
        decreases e.children@.len() - k,
    {
        proof {
            tree::lemma_elements_view(e.children@);
            assert(e@.children[k as int] == tree::element_view(e.children@[k as int]));
            assert(e@.children.take(k + 1).drop_last() =~= e@.children.take(k as int));
        }
        collect_bindings(&e.children[k], output);
        assert(tree::bindings_view(output@) =~= middle + bindings_among(e@.children.take(k + 1)));
        k = k + 1;
    }
    assert(e@.children.take(e@.children.len() as int) =~= e@.children);
    assert(tree::bindings_view(output@) =~= start + bindings_in(e@));
}

/// Appends a location.
fn push_location(output: &mut Vec<XmpPropertyLocation>, location: XmpPropertyLocation)
    ensures
        locations_view(final(output)@) == locations_view(old(output)@).push(location@),
{
    output.push(location);
    assert(locations_view(output@) =~= locations_view(old(output)@).push(location@));
}

/// Collects the locations of the data attributes of an element and of the data nodes in it.
fn collect_data_nodes(e: &Element, output: &mut Vec<XmpPropertyLocation>)
    ensures
        locations_view(final(output)@) == locations_view(old(output)@) + nodes_in(e@),
    decreases *e,
{
    let ghost start = locations_view(output@);
    let mut i: usize = 0;
    assert(start + attribute_nodes(e@, e@.attrs.take(0)) =~= start);
    while i < e.attrs.len()
        invariant
            i <= e.attrs@.len() == e@.attrs.len(),
            locations_view(output@) == start + attribute_nodes(e@, e@.attrs.take(i as int)),
        decreases e.attrs@.len() - i,
    {
        proof {
            assert(e@.attrs[i as int] == e.attrs@[i as int]@);
            assert(e@.attrs.take(i + 1).drop_last() =~= e@.attrs.take(i as int));
            assert(e@.attrs.take(i + 1).last() == e@.attrs[i as int]);
        }
        if let Some(p) = data_attr_property(&e.attrs[i]) {
            push_location(
                output,
                XmpPropertyLocation {
                    namespace: p.namespace,
                    name: p.name,
                    prefix: copy_option(&e.attrs[i].prefix),
                    form: XmpPropertyForm::Attribute,
                    span: e.tag,
                },
            );
        }
        assert(locations_view(output@) =~= start + attribute_nodes(e@, e@.attrs.take(i + 1)));
        i = i + 1;
    }
    let ghost middle = start + attribute_nodes(e@, e@.attrs);
    assert(e@.attrs.take(e@.attrs.len() as int) =~= e@.attrs);
    let mut k: usize = 0;
    proof {
        tree::lemma_elements_view(e.children@);
        assert(middle + nodes_among(e@.children.take(0)) =~= middle);
    }
    while k < e.children.len()
        invariant
            k <= e.children@.len() == e@.children.len(),
            locations_view(output@) == middle + nodes_among(e@.children.take(k as int)),
        decreases e.children@.len() - k,
    {
        proof {
            tree::lemma_elements_view(e.children@);
            assert(e@.children[k as int] == tree::element_view(e.children@[k as int]));
            assert(e@.children.take(k + 1).drop_last() =~= e@.children.take(k as int));
        }
        let child = &e.children[k];
        let ghost before = locations_view(output@);
        if let Some(namespace) = &child.ns {
            if !same_text(namespace.as_str(), RDF_NAMESPACE) && !same_text(
                namespace.as_str(),
                XMPMETA_NAMESPACE,
            ) {
                push_location(
                    output,
                    XmpPropertyLocation {
                        namespace: namespace.clone(),
                        name: child.local.clone(),
                        prefix: copy_option(&child.prefix),
                        form: XmpPropertyForm::Element,
                        span: child.span,
                    },
                );
            }
        }
        assert(locations_view(output@) =~= before + element_nodes(child@));
        collect_data_nodes(child, output);
        assert(locations_view(output@) =~= middle + nodes_among(e@.children.take(k + 1)));
        k = k + 1;
    }
    assert(e@.children.take(e@.children.len() as int) =~= e@.children);
    assert(locations_view(output@) =~= start + nodes_in(e@));
}

// ---------------------------------------------------------------------------------------------
// Descriptions
// ---------------------------------------------------------------------------------------------

/// A property name that has been declared, and where.
pub struct SeenView {
    /// Namespace URI.
    pub namespace: Seq<char>,
    /// Local name.
    pub name: Seq<char>,
    /// Where it was declared.
    pub span: XmpSourceSpan,
}

/// What has been read of a document so far.
pub struct Reading {
    /// The property graph.
    pub meta: Seq<PropertyView>,
    /// The names declared.
    pub seen: Seq<SeenView>,
    /// The locations of the properties.
    pub properties: Seq<LocationView>,
    /// The descriptions.
    pub descriptions: Seq<DescriptionView>,
}

/// The first declaration of a name at or after `from`.
pub open spec fn seen_from(
    seen: Seq<SeenView>,
    namespace: Seq<char>,
    name: Seq<char>,
    from: int,
) -> Option<XmpSourceSpan>
    decreases seen.len() - from,
{
    if from < 0 || from >= seen.len() {
        None
    } else if seen[from].namespace == namespace && seen[from].name == name {
        Some(seen[from].span)
    } else {
        seen_from(seen, namespace, name, from + 1)
    }
}

/// What has been read after one more property; a name that was declared before is an error.
pub open spec fn noted(
    so_far: Reading,
    p: PropertyView,
    location: LocationView,
    span: XmpSourceSpan,
) -> Result<Reading, ErrorView> {
    match seen_from(so_far.seen, p.namespace, p.name, 0) {
        Some(first) => Err(
            ErrorView::DuplicateProperty {
                namespace: p.namespace,
                name: p.name,
                first,
                duplicate: span,
            },
        ),
        None => Ok(
            Reading {
                meta: model::inserted(so_far.meta, p),
                seen: so_far.seen.push(SeenView { namespace: p.namespace, name: p.name, span }),
                properties: so_far.properties.push(location),
                descriptions: so_far.descriptions,
            },
        ),
    }
}

/// What has been read after the attributes of a description from `i` on. Simple unqualified
/// properties may be written as attributes; `rdf:about`/`rdf:ID` and `xml:lang`
/// are not data.
pub open spec fn after_attributes(so_far: Reading, e: ElementView, i: int) -> Result<
    Reading,
    ErrorView,
>
    decreases e.attrs.len() - i,
{
    if i < 0 || i >= e.attrs.len() {
        Ok(so_far)
    } else {
        match reader::data_property(shape_attr(e.attrs[i])) {
            None => after_attributes(so_far, e, i + 1),
            Some(p) => match noted(so_far, p, attribute_location(e, e.attrs[i], p), e.span) {
                Ok(next) => after_attributes(next, e, i + 1),
                Err(error) => Err(error),
            },
        }
    }
}

/// What has been read after the child elements of a description from `i` on.
pub open spec fn after_children(so_far: Reading, e: ElementView, i: int) -> Result<
    Reading,
    ErrorView,
>
    decreases e.children.len() - i,
{
    if i < 0 || i >= e.children.len() {
        Ok(so_far)
    } else {
        let child = e.children[i];
        match reader::property_of(reader::shape(child)) {
            Err(error) => Err(error),
            Ok(p) => match noted(
                so_far,
                p,
                LocationView {
                    namespace: p.namespace,
                    name: p.name,
                    prefix: child.prefix,
                    form: XmpPropertyForm::Element,
                    span: child.span,
                },
                child.span,
            ) {
                Ok(next) => after_children(next, e, i + 1),
                Err(error) => Err(error),
            },
        }
    }
}

/// Whether an attribute names the subject of a description.
pub open spec fn is_subject(a: AttrView) -> bool {
    a.ns == Some(RDF_NAMESPACE@) && (a.local == "about"@ || a.local == "ID"@)
}

/// The index of the first attribute at or after `from` that names the subject.
pub open spec fn subject_from(attrs: Seq<AttrView>, from: int) -> Option<int>
    decreases attrs.len() - from,
{
    if from < 0 || from >= attrs.len() {
        None
    } else if is_subject(attrs[from]) {
        Some(from)
    } else {
        subject_from(attrs, from + 1)
    }
}

/// The location and subject of a description.
pub open spec fn description_of(e: ElementView) -> DescriptionView {
    match subject_from(e.attrs, 0) {
        Some(i) => DescriptionView {
            span: e.span,
            subject: Some(e.attrs[i].value),
            subject_prefix: e.attrs[i].prefix,
        },
        None => DescriptionView { span: e.span, subject: None, subject_prefix: None },
    }
}

/// Whether an element has the given namespace URI and local name.
pub open spec fn is_named(e: ElementView, ns: Seq<char>, local: Seq<char>) -> bool {
    e.ns == Some(ns) && e.local == local
}

/// What has been read after a description.
pub open spec fn after_description(so_far: Reading, e: ElementView) -> Result<Reading, ErrorView> {
    let started = Reading { descriptions: so_far.descriptions.push(description_of(e)), ..so_far };
    match after_attributes(started, e, 0) {
        Ok(next) => after_children(next, e, 0),
        Err(error) => Err(error),
    }
}

/// What has been read after the children of `rdf:RDF` from `i` on. A top-level typed node is
/// prohibited in XMP.
pub open spec fn after_descriptions(so_far: Reading, rdf: ElementView, i: int) -> Result<
    Reading,
    ErrorView,
>
    decreases rdf.children.len() - i,
{
    if i < 0 || i >= rdf.children.len() {
        Ok(so_far)
    } else if is_named(rdf.children[i], RDF_NAMESPACE@, "Description"@) {
        match after_description(so_far, rdf.children[i]) {
            Ok(next) => after_descriptions(next, rdf, i + 1),
            Err(error) => Err(error),
        }
    } else {
        Err(
            ErrorView::Prohibited(
                "top-level <"@ + rdf.children[i].local + "> is not rdf:Description"@,
            ),
        )
    }
}

/// The index of the first `rdf:RDF` at or after `from`.
pub open spec fn rdf_from(s: Seq<ElementView>, from: int) -> Option<int>
    decreases s.len() - from,
{
    if from < 0 || from >= s.len() {
        None
    } else if is_named(s[from], RDF_NAMESPACE@, "RDF"@) {
        Some(from)
    } else {
        rdf_from(s, from + 1)
    }
}

/// The `rdf:RDF` element: the root, or the first such child of an `x:xmpmeta` root.
pub open spec fn rdf_of(root: ElementView) -> Option<ElementView> {
    if is_named(root, RDF_NAMESPACE@, "RDF"@) {
        Some(root)
    } else if is_named(root, XMPMETA_NAMESPACE@, "xmpmeta"@) {
        match rdf_from(root.children, 0) {
            Some(i) => Some(root.children[i]),
            None => None,
        }
    } else {
        None
    }
}

/// The state in which nothing has been read.
pub open spec fn nothing_read() -> Reading {
    Reading {
        meta: Seq::empty(),
        seen: Seq::empty(),
        properties: Seq::empty(),
        descriptions: Seq::empty(),
    }
}

/// The document that an element tree holds.
pub open spec fn interpreted(root: ElementView) -> Result<DocumentView, ErrorView> {
    match rdf_of(root) {
        None => Err(ErrorView::MissingRdf),
        Some(rdf) => match after_descriptions(nothing_read(), rdf, 0) {
            Err(error) => Err(error),
            Ok(read) => Ok(
                DocumentView {
                    meta: read.meta,
                    properties: read.properties,
                    nodes: nodes_in(root),
                    namespaces: bindings_in(root),
                    descriptions: read.descriptions,
                    rdf_prefix: rdf.prefix,
                    root_is_xmpmeta: is_named(root, XMPMETA_NAMESPACE@, "xmpmeta"@),
                },
            ),
        },
    }
}

/// The number of byte-order marks that a text begins with.
pub open spec fn leading_marks(xml: Seq<char>) -> int
    decreases xml.len(),
{
    if xml.len() > 0 && xml[0] == '\u{feff}' {
        1 + leading_marks(xml.drop_first())
    } else {
        0
    }
}

/// A text without the byte-order marks that it begins with. They carry no data, and the lexer would
/// not count the first of them.
pub open spec fn after_marks(xml: Seq<char>) -> Seq<char> {
    xml.skip(leading_marks(xml))
}

/// Whether the lexer does on a text what it should, behind the marks that the text begins with.
pub open spec fn is_sound(xml: Seq<char>) -> bool {
    xml::is_sound(after_marks(xml))
}

/// The bytes of the marks that a text begins with, and of the rest.
pub proof fn lemma_marks(xml: Seq<char>)
    ensures
        0 <= leading_marks(xml) <= xml.len(),
        after_marks(xml).len() > 0 ==> after_marks(xml)[0] != '\u{feff}',
        3 * leading_marks(xml) <= encode_utf8(xml).len(),
        encode_utf8(xml).subrange(3 * leading_marks(xml), encode_utf8(xml).len() as int)
            == encode_utf8(after_marks(xml)),
        is_char_boundary(encode_utf8(xml), 3 * leading_marks(xml)),
        leading_marks(xml) == 0 ==> after_marks(xml) == xml,
    decreases xml.len(),
{
    let b = encode_utf8(xml);
    let k = leading_marks(xml);
    text::lemma_text_bytes(xml);
    is_char_boundary_start_end_of_seq(b);
    if xml.len() > 0 && xml[0] == '\u{feff}' {
        let rest = xml.drop_first();
        lemma_marks(rest);
        encoding::lemma_mark_scalar(xml);
        assert(after_marks(xml) =~= after_marks(rest));
        let inner = encode_utf8(rest);
        assert(b.subrange(3 * k, b.len() as int) =~= inner.subrange(
            3 * (k - 1),
            inner.len() as int,
        ));
        text::lemma_text_bytes(rest);
        text::lemma_text_bytes(after_marks(xml));
        if 3 * k < b.len() {
            assert(b[3 * k] == inner[3 * k - 3]);
            is_char_boundary_iff_not_is_continuation_byte(inner, 3 * k - 3);
            is_char_boundary_iff_not_is_continuation_byte(b, 3 * k);
        }
    } else {
        assert(after_marks(xml) =~= xml);
        assert(b.subrange(0, b.len() as int) =~= b);
    }
}

/// The number of bytes of the marks that a text begins with.
fn marks_length(xml: &str) -> (r: usize)
    ensures
        r == 3 * leading_marks(xml@),
        r <= encode_utf8(xml@).len(),
{
    let source = xml.as_bytes();
    let ghost b = encode_utf8(xml@);
    let length: usize = source.len();
    let mut at: usize = 0;
    let ghost mut rest: Seq<char> = xml@;
    assert(b.subrange(0, b.len() as int) =~= b);
    loop
        invariant
            source@ == b,
            length == b.len(),
            at <= length,
            b.subrange(at as int, b.len() as int) == encode_utf8(rest),
            3 * leading_marks(xml@) == at + 3 * leading_marks(rest),
        ensures
            at <= length,
            3 * leading_marks(xml@) == at,
        decreases length - at,
    {
        proof {
            if rest.len() > 0 {
                encoding::lemma_mark_scalar(rest);
            }
            text::lemma_text_bytes(rest);
            let part = b.subrange(at as int, b.len() as int);
            if at + 3 <= length {
                assert(part[0] == b[at as int] && part[1] == b[at + 1] && part[2] == b[at + 2]);
            }
        }
        if length - at < 3 || source[at] != 0xEF || source[at + 1] != 0xBB || source[at + 2]
            != 0xBF {
            break;
        }
        proof {
            assert(rest.len() > 0) by {
                if rest.len() == 0 {
                    assert(encode_utf8(rest) =~= Seq::<u8>::empty());
                }
            }
            let part = b.subrange(at as int, b.len() as int);
            assert(part.subrange(3, part.len() as int) =~= encode_utf8(rest.drop_first()));
            assert(b.subrange(at + 3, b.len() as int) =~= part.subrange(3, part.len() as int));
            rest = rest.drop_first();
        }
        at = at + 3;
    }
    at
}

/// The document that an XML text holds whose first byte is at `base`.
pub open spec fn document_of(xml: Seq<char>, base: int) -> Result<DocumentView, ErrorView> {
    match tree::tree_of(after_marks(xml), base + 3 * leading_marks(xml)) {
        Ok(root) => interpreted(root),
        Err(error) => Err(error),
    }
}

/// A property name that has been declared, and where.
struct Seen {
    namespace: String,
    name: String,
    span: XmpSourceSpan,
}

/// The mathematical form of a list of declared names.
spec fn seen_view(seen: Seq<Seen>) -> Seq<SeenView> {
    seen.map_values(
        |s: Seen| SeenView { namespace: s.namespace@, name: s.name@, span: s.span },
    )
}

/// What has been read of a document so far.
struct Draft {
    meta: XmpMeta,
    seen: Vec<Seen>,
    properties: Vec<XmpPropertyLocation>,
    descriptions: Vec<XmpDescriptionLocation>,
}

impl Draft {
    spec fn view(&self) -> Reading {
        Reading {
            meta: self.meta@,
            seen: seen_view(self.seen@),
            properties: locations_view(self.properties@),
            descriptions: descriptions_view(self.descriptions@),
        }
    }

    /// Where a name was declared first.
    fn first_declaration(&self, namespace: &str, name: &str) -> (r: Option<XmpSourceSpan>)
        ensures
            r == seen_from(self@.seen, namespace@, name@, 0),
    {
        let ghost seen = seen_view(self.seen@);
        let mut i: usize = 0;
        while i < self.seen.len()
            invariant
                i <= self.seen@.len() == seen.len(),
                seen == seen_view(self.seen@),
                seen_from(seen, namespace@, name@, 0) == seen_from(
                    seen,
                    namespace@,
                    name@,
                    i as int,
                ),
            decreases self.seen@.len() - i,
        {
            let s = &self.seen[i];
            assert(seen[i as int] == (SeenView {
                namespace: s.namespace@,
                name: s.name@,
                span: s.span,
            }));
            if same_text(s.namespace.as_str(), namespace) && same_text(s.name.as_str(), name) {
                return Some(s.span);
            }
            i = i + 1;
        }
        None
    }

    /// Takes up one more property; a name that was declared before is an error.
    fn insert_unique(
        self,
        property: XmpProperty,
        location: XmpPropertyLocation,
        span: XmpSourceSpan,
    ) -> (r: Result<Draft, XmpError>)
        ensures
            match r {
                Ok(draft) => noted(self@, property@, location@, span) == Ok::<Reading, ErrorView>(
                    draft@,
                ),
                Err(e) => noted(self@, property@, location@, span) == Err::<Reading, ErrorView>(
                    e@,
                ),
            },
    {
        if let Some(first) = self.first_declaration(
            property.namespace.as_str(),
            property.name.as_str(),
        ) {
            return Err(
                XmpError::DuplicateProperty {
                    namespace: property.namespace,
                    name: property.name,
                    first,
                    duplicate: span,
                },
            );
        }
        let mut draft = self;
        let seen = Seen {
            namespace: property.namespace.clone(),
            name: property.name.clone(),
            span,
        };
        draft.seen.push(seen);
        draft.meta.set(property);
        push_location(&mut draft.properties, location);
        assert(seen_view(draft.seen@) =~= seen_view(self.seen@).push(
            SeenView { namespace: property@.namespace, name: property@.name, span },
        ));
        Ok(draft)
    }
}

/// The location and subject of a description.
fn describe(e: &Element) -> (r: XmpDescriptionLocation)
    ensures
        r@ == description_of(e@),
{
    let mut i: usize = 0;
    while i < e.attrs.len()
        invariant
            i <= e.attrs@.len() == e@.attrs.len(),
            subject_from(e@.attrs, 0) == subject_from(e@.attrs, i as int),
        decreases e.attrs@.len() - i,
    {
        let a = &e.attrs[i];
        assert(e@.attrs[i as int] == a@);
        if is_text(&a.ns, RDF_NAMESPACE) && (same_text(a.local.as_str(), "about") || same_text(
            a.local.as_str(),
            "ID",
        )) {
            return XmpDescriptionLocation {
                span: e.span,
                subject: Some(a.value.clone()),
                subject_prefix: copy_option(&a.prefix),
            };
        }
        i = i + 1;
    }
    XmpDescriptionLocation { span: e.span, subject: None, subject_prefix: None }
}

/// Reads one `rdf:Description`'s properties (both attribute and element forms).
#[verifier::loop_isolation(false)]
fn parse_description(e: &Element, draft: Draft) -> (r: Result<Draft, XmpError>)
    ensures
        match r {
            Ok(next) => after_description(draft@, e@) == Ok::<Reading, ErrorView>(next@),
            Err(error) => after_description(draft@, e@) == Err::<Reading, ErrorView>(error@),
        },
{
    let ghost so_far = draft@;
    let mut draft = draft;
    let description = describe(e);
    draft.descriptions.push(description);
    let ghost started = Reading {
        descriptions: so_far.descriptions.push(description_of(e@)),
        ..so_far
    };
    assert(draft@.descriptions =~= started.descriptions);
    let mut i: usize = 0;
    while i < e.attrs.len()
        invariant
            i <= e.attrs@.len() == e@.attrs.len(),
            started == (Reading {
                descriptions: so_far.descriptions.push(description_of(e@)),
                ..so_far
            }),
            after_attributes(started, e@, 0) == after_attributes(draft@, e@, i as int),
        decreases e.attrs@.len() - i,
    {
        assert(e@.attrs[i as int] == e.attrs@[i as int]@);
        if let Some(p) = data_attr_property(&e.attrs[i]) {
            let location = XmpPropertyLocation {
                namespace: p.namespace.clone(),
                name: p.name.clone(),
                prefix: copy_option(&e.attrs[i].prefix),
                form: XmpPropertyForm::Attribute,
                span: e.tag,
            };
            draft =
            match draft.insert_unique(p, location, e.span) {
                Ok(next) => next,
                Err(error) => {
                    return Err(error);
                },
            };
        }
        i = i + 1;
    }
    let ghost middle = draft@;
    let mut k: usize = 0;
    proof {
        tree::lemma_elements_view(e.children@);
    }
    while k < e.children.len()
        invariant
            k <= e.children@.len() == e@.children.len(),
            started == (Reading {
                descriptions: so_far.descriptions.push(description_of(e@)),
                ..so_far
            }),
            after_attributes(started, e@, 0) == Ok::<Reading, ErrorView>(middle),
            after_children(middle, e@, 0) == after_children(draft@, e@, k as int),
        decreases e.children@.len() - k,
    {
        let child = &e.children[k];
        proof {
            tree::lemma_elements_view(e.children@);
            assert(e@.children[k as int] == child@);
        }
        let property = match parse_property(child) {
            Ok(property) => property,
            Err(error) => {
                return Err(error);
            },
        };
        let location = XmpPropertyLocation {
            namespace: property.namespace.clone(),
            name: property.name.clone(),
            prefix: copy_option(&child.prefix),
            form: XmpPropertyForm::Element,
            span: child.span,
        };
        draft =
        match draft.insert_unique(property, location, child.span) {
            Ok(next) => next,
            Err(error) => {
                return Err(error);
            },
        };
        k = k + 1;
    }
    Ok(draft)
}

/// Finds the `rdf:RDF` element, looking inside an optional `x:xmpmeta` wrapper.
fn find_rdf(root: &Element) -> (r: Option<&Element>)
    ensures
        error::option_view(r) == rdf_of(root@),
{
    if is_element(root, RDF_NAMESPACE, "RDF") {
        return Some(root);
    }
    if is_element(root, XMPMETA_NAMESPACE, "xmpmeta") {
        let mut i: usize = 0;
        proof {
            tree::lemma_elements_view(root.children@);
        }
        while i < root.children.len()
            invariant
                i <= root.children@.len() == root@.children.len(),
                rdf_of(root@) == (match rdf_from(root@.children, i as int) {
                    Some(k) => Some(root@.children[k]),
                    None => None,
                }),
            decreases root.children@.len() - i,
        {
            proof {
                tree::lemma_elements_view(root.children@);
                assert(root@.children[i as int] == root.children@[i as int]@);
            }
            if is_element(&root.children[i], RDF_NAMESPACE, "RDF") {
                return Some(&root.children[i]);
            }
            i = i + 1;
        }
    }
    None
}

/// The document that an element tree holds.
pub fn interpret(root: &Element) -> (r: Result<XmpDocument, XmpError>)
    ensures
        error::outcome(r) == interpreted(root@),
{
    let rdf = match find_rdf(root) {
        Some(rdf) => rdf,
        None => {
            return Err(XmpError::MissingRdf);
        },
    };
    let mut draft = Draft {
        meta: XmpMeta::new(),
        seen: Vec::new(),
        properties: Vec::new(),
        descriptions: Vec::new(),
    };
    proof {
        assert(draft@.seen =~= Seq::empty());
        assert(draft@.properties =~= Seq::empty());
        assert(draft@.descriptions =~= Seq::empty());
        assert(draft@ == nothing_read());
        tree::lemma_elements_view(rdf.children@);
    }
    let mut i: usize = 0;
    while i < rdf.children.len()
        invariant
            i <= rdf.children@.len() == rdf@.children.len(),
            rdf_of(root@) == Some(rdf@),
            after_descriptions(nothing_read(), rdf@, 0) == after_descriptions(
                draft@,
                rdf@,
                i as int,
            ),
        decreases rdf.children@.len() - i,
    {
        let child = &rdf.children[i];
        proof {
            tree::lemma_elements_view(rdf.children@);
            assert(rdf@.children[i as int] == child@);
        }
        if !is_element(child, RDF_NAMESPACE, "Description") {
            return Err(
                XmpError::Prohibited(
                    text::join3("top-level <", child.local.as_str(), "> is not rdf:Description"),
                ),
            );
        }
        draft =
        match parse_description(child, draft) {
            Ok(next) => next,
            Err(error) => {
                return Err(error);
            },
        };
        i = i + 1;
    }
    let mut namespaces: Vec<XmpNamespaceBinding> = Vec::new();
    collect_bindings(root, &mut namespaces);
    let mut nodes: Vec<XmpPropertyLocation> = Vec::new();
    collect_data_nodes(root, &mut nodes);
    proof {
        assert(tree::bindings_view(namespaces@) =~= bindings_in(root@));
        assert(locations_view(nodes@) =~= nodes_in(root@));
    }
    Ok(
        XmpDocument {
            meta: draft.meta,
            properties: draft.properties,
            nodes,
            namespaces,
            descriptions: draft.descriptions,
            rdf_prefix: copy_option(&rdf.prefix),
            root_is_xmpmeta: is_element(root, XMPMETA_NAMESPACE, "xmpmeta"),
        },
    )
}

/// The document that an XML text holds whose first byte is at `base`.
pub fn parse_document(xml: &str, base: usize) -> (r: Result<XmpDocument, XmpError>)
    requires
        base + encode_utf8(xml@).len() <= usize::MAX,
    ensures
        error::outcome(r) == document_of(xml@, base as int),
        is_sound(xml@),
{
    let skipped: usize = marks_length(xml);
    proof {
        text::lemma_text_bytes(xml@);
        lemma_marks(xml@);
        text::lemma_text_bytes(after_marks(xml@));
        is_char_boundary_start_end_of_seq(encode_utf8(xml@));
    }
    match build_tree(slice_text(xml, skipped, xml.as_bytes().len()), base + skipped) {
        Ok(root) => interpret(&root),
        Err(error) => Err(error),
    }
}

// ---------------------------------------------------------------------------------------------
// Packets
// ---------------------------------------------------------------------------------------------

impl packet::DecodedView {
    /// The document in the content of a packet.
    pub open spec fn document(self) -> Result<DocumentView, ErrorView> {
        let content = self.envelope.content;
        document_of(
            decode_utf8(packet::span_bytes(self.bytes(), content)),
            content.start as int,
        )
    }
}

impl DecodedXmpPacket {
    /// Parses the decoded packet into its property graph and lexical source layout.
    ///
    /// Every span indexes [`Self::decoded`], including for packets transcoded from UTF-16/32. It lies
    /// within the content, begins at a `<` and ends behind a `>`.
    ///
    /// # Errors
    ///
    /// Returns an [`XmpError`] if the XML or XMP data model is malformed or ambiguous.
    pub fn parse(&self) -> (r: Result<XmpDocument, XmpError>)
        requires
            packet::sliceable(self@.bytes(), self.envelope.content),
        ensures
            error::outcome(r) == self@.document(),
            is_sound(decode_utf8(packet::span_bytes(self@.bytes(), self.envelope.content))),
            spans::outcome_fits(
                packet::span_bytes(self@.bytes(), self.envelope.content),
                self.envelope.content.start as int,
                error::outcome(r),
            ),
            spans::outcome_fits(self@.bytes(), 0, error::outcome(r)),
            r matches Ok(document) ==> has_located_names(document@),
    {
        let content = self.envelope.content;
        let _length: usize = self.decoded.as_str().as_bytes().len();
        let xml = slice_text(self.decoded.as_str(), content.start, content.end);
        let document = parse_document(xml, content.start);
        proof {
            text::lemma_text_bytes(self.decoded@);
            text::lemma_boundary_within(
                self@.bytes(),
                content.start as int,
                content.start as int,
                content.end as int,
            );
            decode_utf8_encode_utf8(packet::span_bytes(self@.bytes(), content));
            spans::law_spans_slice_the_text(xml@, content.start as int);
            spans::lemma_outcome_fits_whole(
                self@.bytes(),
                0,
                content.start as int,
                content.end as int,
                self@.document(),
            );
            law_properties_are_located(xml@, content.start as int);
        }
        document
    }
}

/// Whether the locations of a document name the properties of its graph, in the same order, and no
/// name twice.
pub open spec fn has_located_names(d: DocumentView) -> bool {
    &&& d.properties.len() == d.meta.len()
    &&& forall|i: int|
        0 <= i < d.meta.len() ==> (#[trigger] d.properties[i]).namespace == d.meta[i].namespace
            && d.properties[i].name == d.meta[i].name
    &&& forall|i: int, j: int|
        0 <= i < j < d.properties.len() ==> (#[trigger] d.properties[i]).namespace != (
        #[trigger] d.properties[j]).namespace || d.properties[i].name != d.properties[j].name
}

/// Whether what has been read names the same properties in its graph, its names and its locations,
/// and none twice.
spec fn is_named_once(r: Reading) -> bool {
    &&& r.seen.len() == r.meta.len() == r.properties.len()
    &&& forall|i: int|
        0 <= i < r.seen.len() ==> (#[trigger] r.seen[i]).namespace == r.meta[i].namespace
            && r.seen[i].name == r.meta[i].name && r.seen[i].namespace == r.properties[i].namespace
            && r.seen[i].name == r.properties[i].name
    &&& forall|i: int, j: int|
        0 <= i < j < r.seen.len() ==> (#[trigger] r.seen[i]).namespace != (
        #[trigger] r.seen[j]).namespace || r.seen[i].name != r.seen[j].name
}

/// A name that was not found has not been declared.
proof fn lemma_not_seen(seen: Seq<SeenView>, namespace: Seq<char>, name: Seq<char>, from: int)
    requires
        0 <= from,
        seen_from(seen, namespace, name, from) is None,
    ensures
        forall|i: int|
            from <= i < seen.len() ==> (#[trigger] seen[i]).namespace != namespace || seen[i].name
                != name,
    decreases seen.len() - from,
{
    if from < seen.len() {
        lemma_not_seen(seen, namespace, name, from + 1);
    }
}

proof fn lemma_noted_once(r: Reading, p: PropertyView, location: LocationView, span: XmpSourceSpan)
    requires
        is_named_once(r),
        location.namespace == p.namespace,
        location.name == p.name,
    ensures
        noted(r, p, location, span) matches Ok(next) ==> is_named_once(next),
{
    if let Ok(next) = noted(r, p, location, span) {
        lemma_not_seen(r.seen, p.namespace, p.name, 0);
        model::lemma_position_from(r.meta, p.namespace, p.name, 0);
        if let Some(i) = model::position(r.meta, p.namespace, p.name) {
            assert(r.seen[i].namespace == r.meta[i].namespace);
        }
        assert(next.meta == r.meta.push(p));
    }
}

proof fn lemma_attributes_once(r: Reading, e: ElementView, i: int)
    requires
        is_named_once(r),
    ensures
        after_attributes(r, e, i) matches Ok(next) ==> is_named_once(next),
    decreases e.attrs.len() - i,
{
    if 0 <= i < e.attrs.len() {
        match reader::data_property(shape_attr(e.attrs[i])) {
            None => {
                lemma_attributes_once(r, e, i + 1);
            },
            Some(p) => {
                let location = attribute_location(e, e.attrs[i], p);
                lemma_noted_once(r, p, location, e.span);
                if let Ok(next) = noted(r, p, location, e.span) {
                    lemma_attributes_once(next, e, i + 1);
                }
            },
        }
    }
}

proof fn lemma_children_once(r: Reading, e: ElementView, i: int)
    requires
        is_named_once(r),
    ensures
        after_children(r, e, i) matches Ok(next) ==> is_named_once(next),
    decreases e.children.len() - i,
{
    if 0 <= i < e.children.len() {
        let child = e.children[i];
        if let Ok(p) = reader::property_of(reader::shape(child)) {
            let location = LocationView {
                namespace: p.namespace,
                name: p.name,
                prefix: child.prefix,
                form: XmpPropertyForm::Element,
                span: child.span,
            };
            lemma_noted_once(r, p, location, child.span);
            if let Ok(next) = noted(r, p, location, child.span) {
                lemma_children_once(next, e, i + 1);
            }
        }
    }
}

proof fn lemma_descriptions_once(r: Reading, rdf: ElementView, i: int)
    requires
        is_named_once(r),
    ensures
        after_descriptions(r, rdf, i) matches Ok(next) ==> is_named_once(next),
    decreases rdf.children.len() - i,
{
    if 0 <= i < rdf.children.len() {
        let e = rdf.children[i];
        let started = Reading { descriptions: r.descriptions.push(description_of(e)), ..r };
        lemma_attributes_once(started, e, 0);
        if let Ok(next) = after_attributes(started, e, 0) {
            lemma_children_once(next, e, 0);
        }
        if let Ok(next) = after_description(r, e) {
            lemma_descriptions_once(next, rdf, i + 1);
        }
    }
}

/// The locations of a document are those of the properties of its graph, each named once.
pub proof fn law_properties_are_located(xml: Seq<char>, base: int)
    ensures
        document_of(xml, base) matches Ok(d) ==> has_located_names(d),
{
    if let Ok(root) = tree::tree_of(after_marks(xml), base + 3 * leading_marks(xml)) {
        if let Some(rdf) = rdf_of(root) {
            lemma_descriptions_once(nothing_read(), rdf, 0);
            if let Ok(read) = after_descriptions(nothing_read(), rdf, 0) {
                assert forall|i: int, j: int| 0 <= i < j < read.properties.len() implies (
                #[trigger] read.properties[i]).namespace != (
                #[trigger] read.properties[j]).namespace || read.properties[i].name
                    != read.properties[j].name by {
                    assert(read.seen[i].namespace != read.seen[j].namespace || read.seen[i].name
                        != read.seen[j].name);
                }
                assert forall|i: int| 0 <= i < read.meta.len() implies (
                #[trigger] read.properties[i]).namespace == read.meta[i].namespace
                    && read.properties[i].name == read.meta[i].name by {
                    assert(read.seen[i].namespace == read.meta[i].namespace);
                }
            }
        }
    }
}

/// The graph of a document, or the error in its place.
pub open spec fn graph_of(document: Result<DocumentView, ErrorView>) -> Result<
    Seq<PropertyView>,
    ErrorView,
> {
    match document {
        Ok(d) => Ok(d.meta),
        Err(error) => Err(error),
    }
}

impl XmpPacket {
    /// Parses this packet's RDF/XML body into a property graph.
    ///
    /// # Errors
    ///
    /// Returns an [`XmpError`] if the body is malformed XML, has no `rdf:RDF` element, or uses an
    /// RDF/XML construct XMP does not permit.
    pub fn parse(&self) -> (r: Result<XmpMeta, XmpError>)
        ensures
            error::outcome(r) == graph_of(document_of(self@.body, 0)),
            forall|writer: WriterView, meta: Seq<PropertyView>|
                round_trip::round_trips(writer, meta) && self@.body == #[trigger] writer::body_text(
                    writer,
                    meta,
                ) ==> error::outcome(r) == Ok::<Seq<PropertyView>, ErrorView>(meta),
    {
        let _length: usize = self.body.as_str().as_bytes().len();
        let document = parse_document(self.body.as_str(), 0);
        proof {
            assert forall|writer: WriterView, meta: Seq<PropertyView>|
                round_trip::round_trips(writer, meta) && self@.body == #[trigger] writer::body_text(
                    writer,
                    meta,
                ) implies graph_of(document_of(self@.body, 0)) == Ok::<
                Seq<PropertyView>,
                ErrorView,
            >(meta) by {
                round_trip::lemma_body_is_unmarked(writer, meta);
                round_trip::law_written_text_reads_back(writer, meta, 0);
            }
        }
        match document {
            Ok(document) => Ok(document.meta),
            Err(error) => Err(error),
        }
    }
}

/// The graph that packet bytes hold.
pub open spec fn graph_in(bytes: Seq<u8>) -> Result<Seq<PropertyView>, ErrorView> {
    match packet::scanned(bytes) {
        Ok(d) => graph_of(d.document()),
        Err(error) => Err(error),
    }
}

impl XmpMeta {
    /// Parses an XMP packet into a property graph.
    ///
    /// Accepts a packet with or without the `<?xpacket?>` wrapper (so it works on a WebP `XMP `
    /// chunk, an AVIF `mime` item, a JPEG `APP1` payload, or a bare `rdf:RDF` / `x:xmpmeta` body),
    /// decoding UTF-8, UTF-16, or UTF-32 in either byte order.
    ///
    /// This is exactly [`XmpPacket::scan`] followed by [`XmpPacket::parse`]; scan first instead
    /// when the envelope matters (its writability and padding drive in-place editing).
    ///
    /// # Errors
    ///
    /// Returns an [`XmpError`] if the packet encoding or XML is malformed, there is no `rdf:RDF`
    /// element, the same expanded top-level property is declared twice, or the RDF/XML uses a
    /// construct XMP does not permit.
    pub fn from_packet(bytes: &[u8]) -> (r: Result<XmpMeta, XmpError>)
        ensures
            error::outcome(r) == graph_in(bytes@),
            packet::scanned(bytes@) matches Ok(d) ==> error::outcome(r) == shifting::moved_graph(
                graph_of(document_of(d.packet.body, 0)),
                d.envelope.content.start as int,
            ),
            forall|writer: WriterView, meta: Seq<PropertyView>|
                round_trip::round_trips(writer, meta) && bytes@ == encode_utf8(
                    #[trigger] writer::packet_text(writer, meta),
                ) ==> error::outcome(r) == Ok::<Seq<PropertyView>, ErrorView>(meta),
            forall|writer: WriterView, meta: Seq<PropertyView>|
                round_trip::round_trips(writer, meta) && bytes@ == encode_utf8(
                    #[trigger] writer::body_text(writer, meta),
                ) ==> error::outcome(r) == Ok::<Seq<PropertyView>, ErrorView>(meta),
    {
        let _length: usize = bytes.len();
        match XmpPacket::scan_with_source(bytes) {
            Ok(decoded) => {
                let document = decoded.parse();
                proof {
                    text::lemma_text_bytes(decoded@.packet.body);
                    shifting::law_reading_is_scanning_and_parsing(bytes@);
                    round_trip::lemma_bytes_read_back(bytes@);
                }
                match document {
                    Ok(document) => Ok(document.meta),
                    Err(error) => Err(error),
                }
            },
            Err(error) => {
                proof {
                    round_trip::lemma_bytes_read_back(bytes@);
                }
                Err(error)
            },
        }
    }
}

} // verus!
