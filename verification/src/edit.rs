//! Encoding- and envelope-preserving XMP edit transactions.

use vstd::prelude::*;
use vstd::string::*;
use vstd::utf8::*;

use crate::document;
use crate::error;
use crate::error::{ErrorView, XmpError};
use crate::model;
use crate::model::{
    same_properties, ItemView, PropertyView, ValueView, XmpArray, XmpItem, XmpMeta, XmpProperty,
    XmpValue,
};
use crate::namespace;
use crate::namespace::{Namespace, NamespaceView, XMPMETA_NAMESPACE};
use crate::packet;
use crate::packet::{DecodedXmpPacket, XmpPacket};
use crate::relexing;
use crate::resplicing;
use crate::round_trip;
use crate::text;
use crate::text::{chars_of, copy_all, same_text, slice_text};
use crate::tree;
use crate::tree::{BindingView, XmpNamespaceBinding};
use crate::writer;
use crate::writer::XmpWriter;
use crate::xml;
use crate::xml::{lex, StartTag, TokenKind, XmlToken};

verus! {

/// A parsed XMP packet that can be changed as one deterministic transaction.
///
/// The source bytes are returned exactly when the graph is unchanged. When it is changed, the
/// RDF graph is emitted in canonical form while the source packet instructions, padding, text
/// encoding, and byte-order-mark choice are retained. This prevents independent product layers
/// from implementing their own packet scanners and serializers.
#[derive(Debug)]
pub struct XmpEdit {
    source: Vec<u8>,
    decoded: DecodedXmpPacket,
    source_meta: XmpMeta,
    meta: XmpMeta,
    namespaces: Vec<Namespace>,
}

/// The mathematical form of an [`XmpEdit`].
pub struct EditView {
    /// The source bytes.
    pub source: Seq<u8>,
    /// The decoded packet.
    pub decoded: packet::DecodedView,
    /// The graph of the source.
    pub source_meta: Seq<PropertyView>,
    /// The current graph.
    pub meta: Seq<PropertyView>,
    /// The namespaces with preferred prefixes.
    pub namespaces: Seq<NamespaceView>,
}

impl View for XmpEdit {
    type V = EditView;

    closed spec fn view(&self) -> EditView {
        EditView {
            source: self.source@,
            decoded: self.decoded@,
            source_meta: self.source_meta@,
            meta: self.meta@,
            namespaces: namespace::namespaces_view(self.namespaces@),
        }
    }
}

impl Clone for XmpEdit {
    fn clone(&self) -> (r: Self)
        ensures
            r@ == self@,
    {
        let r = XmpEdit {
            source: copy_all(self.source.as_slice()),
            decoded: self.decoded.clone(),
            source_meta: self.source_meta.clone(),
            meta: self.meta.clone(),
            namespaces: self.namespaces.clone(),
        };
        assert(namespace::namespaces_view(r.namespaces@) =~= namespace::namespaces_view(
            self.namespaces@,
        ));
        r
    }
}

impl EditView {
    /// The decoded packet and the graph of the source are what the source bytes hold.
    pub open spec fn well_formed(self) -> bool {
        &&& packet::scanned(self.source) == Ok::<packet::DecodedView, ErrorView>(self.decoded)
        &&& self.decoded.well_formed()
        &&& self.decoded.bytes().len() <= usize::MAX
        &&& document::graph_of(self.decoded.document()) == Ok::<Seq<PropertyView>, ErrorView>(
            self.source_meta,
        )
        &&& document::is_sound(self.decoded.packet.body)
    }

    /// The writer that serializes the graph of a transaction that changed it.
    pub open spec fn writer(self) -> writer::WriterView {
        let content = self.decoded.envelope.content;
        writer::WriterView {
            namespaces: self.namespaces,
            wrap_xmpmeta: uses_xmpmeta(
                decode_utf8(packet::span_bytes(self.decoded.bytes(), content)),
            ),
            writable: true,
            padding: writer::DEFAULT_PADDING as nat,
        }
    }
}

/// The namespaces that bindings give a prefix to.
pub open spec fn prefixed(bindings: Seq<BindingView>) -> Seq<NamespaceView>
    decreases bindings.len(),
{
    if bindings.len() == 0 {
        Seq::empty()
    } else {
        let before = prefixed(bindings.drop_last());
        match bindings.last().prefix {
            Some(prefix) => before.push(
                NamespaceView { uri: bindings.last().namespace, prefix },
            ),
            None => before,
        }
    }
}

/// The transaction that starts from packet bytes.
pub open spec fn edit_of(bytes: Seq<u8>) -> Result<EditView, ErrorView> {
    match packet::scanned(bytes) {
        Err(e) => Err(e),
        Ok(decoded) => match decoded.document() {
            Err(e) => Err(e),
            Ok(d) => Ok(
                EditView {
                    source: bytes,
                    decoded,
                    source_meta: d.meta,
                    meta: d.meta,
                    namespaces: prefixed(d.namespaces),
                },
            ),
        },
    }
}

/// The namespaces that bindings give a prefix to.
fn prefixed_namespaces(bindings: &Vec<XmpNamespaceBinding>) -> (r: Vec<Namespace>)
    ensures
        namespace::namespaces_view(r@) == prefixed(tree::bindings_view(bindings@)),
{
    let ghost all = tree::bindings_view(bindings@);
    let mut namespaces: Vec<Namespace> = Vec::new();
    let mut i: usize = 0;
    assert(namespace::namespaces_view(namespaces@) =~= prefixed(all.take(0)));
    while i < bindings.len()
        invariant
            i <= bindings@.len() == all.len(),
            all == tree::bindings_view(bindings@),
            namespace::namespaces_view(namespaces@) == prefixed(all.take(i as int)),
        decreases bindings@.len() - i,
    {
        let ghost before = namespaces@;
        let binding = &bindings[i];
        proof {
            assert(all[i as int] == binding@);
            assert(all.take(i + 1).drop_last() =~= all.take(i as int));
            assert(all.take(i + 1).last() == all[i as int]);
        }
        if let Some(prefix) = &binding.prefix {
            let entry = Namespace::new(binding.namespace.as_str(), prefix.as_str());
            namespaces.push(entry);
            assert(namespace::namespaces_view(namespaces@) =~= namespace::namespaces_view(
                before,
            ).push(entry@));
        }
        i = i + 1;
    }
    assert(all.take(all.len() as int) =~= all);
    namespaces
}

// ---------------------------------------------------------------------------------------------
// Renaming a namespace
// ---------------------------------------------------------------------------------------------

/// A property with one namespace URI replaced throughout.
pub open spec fn renamed(p: PropertyView, from: Seq<char>, to: Seq<char>) -> PropertyView
    decreases p,
{
    PropertyView {
        namespace: if p.namespace == from {
            to
        } else {
            p.namespace
        },
        name: p.name,
        value: renamed_value(p.value, from, to),
        qualifiers: renamed_all(p.qualifiers, from, to),
    }
}

/// Properties with one namespace URI replaced throughout.
pub open spec fn renamed_all(s: Seq<PropertyView>, from: Seq<char>, to: Seq<char>) -> Seq<
    PropertyView,
>
    decreases s,
{
    if s.len() == 0 {
        Seq::empty()
    } else {
        renamed_all(s.drop_last(), from, to).push(renamed(s.last(), from, to))
    }
}

/// A value with one namespace URI replaced throughout.
pub open spec fn renamed_value(v: ValueView, from: Seq<char>, to: Seq<char>) -> ValueView
    decreases v,
{
    match v {
        ValueView::Structured(fields) => ValueView::Structured(renamed_all(fields, from, to)),
        ValueView::Array(kind, items) => ValueView::Array(kind, renamed_items(items, from, to)),
        _ => v,
    }
}

/// Items with one namespace URI replaced throughout.
pub open spec fn renamed_items(s: Seq<ItemView>, from: Seq<char>, to: Seq<char>) -> Seq<ItemView>
    decreases s,
{
    if s.len() == 0 {
        Seq::empty()
    } else {
        renamed_items(s.drop_last(), from, to).push(
            ItemView {
                value: renamed_value(s.last().value, from, to),
                qualifiers: renamed_all(s.last().qualifiers, from, to),
            },
        )
    }
}

/// The number of names in a property that are in a namespace.
pub open spec fn uses(p: PropertyView, uri: Seq<char>) -> nat
    decreases p,
{
    (if p.namespace == uri {
        1nat
    } else {
        0nat
    }) + uses_in_all(p.qualifiers, uri) + uses_in_value(p.value, uri)
}

/// The number of names in some properties that are in a namespace.
pub open spec fn uses_in_all(s: Seq<PropertyView>, uri: Seq<char>) -> nat
    decreases s,
{
    if s.len() == 0 {
        0
    } else {
        uses_in_all(s.drop_last(), uri) + uses(s.last(), uri)
    }
}

/// The number of names in a value that are in a namespace.
pub open spec fn uses_in_value(v: ValueView, uri: Seq<char>) -> nat
    decreases v,
{
    match v {
        ValueView::Structured(fields) => uses_in_all(fields, uri),
        ValueView::Array(_, items) => uses_in_items(items, uri),
        _ => 0,
    }
}

/// The number of names in some items that are in a namespace.
pub open spec fn uses_in_items(s: Seq<ItemView>, uri: Seq<char>) -> nat
    decreases s,
{
    if s.len() == 0 {
        0
    } else {
        uses_in_items(s.drop_last(), uri) + uses_in_all(s.last().qualifiers, uri) + uses_in_value(
            s.last().value,
            uri,
        )
    }
}

/// A count, as far as a machine word holds it.
pub open spec fn as_count(n: nat) -> usize {
    if n <= usize::MAX {
        n as usize
    } else {
        usize::MAX
    }
}

/// The sum of two counts, as far as a machine word holds it.
fn plus(a: usize, b: usize, Ghost(x): Ghost<nat>, Ghost(y): Ghost<nat>) -> (r: usize)
    requires
        a == as_count(x),
        b == as_count(y),
    ensures
        r == as_count(x + y),
{
    if a <= usize::MAX - b {
        a + b
    } else {
        usize::MAX
    }
}

/// A property with one namespace URI replaced throughout, and how often it was.
fn remap_property(p: &XmpProperty, from: &str, to: &str) -> (r: (XmpProperty, usize))
    ensures
        r.0@ == renamed(p@, from@, to@),
        r.1 == as_count(uses(p@, from@)),
    decreases *p,
{
    let own = same_text(p.namespace.as_str(), from);
    let (qualifiers, q) = remap_properties(&p.qualifiers, from, to);
    let (value, v) = remap_value(&p.value, from, to);
    let first: usize = if own {
        1
    } else {
        0
    };
    let ghost n = if own {
        1nat
    } else {
        0nat
    };
    let count = plus(
        plus(first, q, Ghost(n), Ghost(uses_in_all(p@.qualifiers, from@))),
        v,
        Ghost(n + uses_in_all(p@.qualifiers, from@)),
        Ghost(uses_in_value(p@.value, from@)),
    );
    let namespace = if own {
        to.to_owned()
    } else {
        p.namespace.clone()
    };
    (XmpProperty { namespace, name: p.name.clone(), value, qualifiers }, count)
}

/// Properties with one namespace URI replaced throughout, and how often it was.
fn remap_properties(s: &Vec<XmpProperty>, from: &str, to: &str) -> (r: (Vec<XmpProperty>, usize))
    ensures
        model::properties_view(r.0@) == renamed_all(model::properties_view(s@), from@, to@),
        r.1 == as_count(uses_in_all(model::properties_view(s@), from@)),
    decreases *s,
{
    let ghost all = model::properties_view(s@);
    let mut out: Vec<XmpProperty> = Vec::new();
    let mut count: usize = 0;
    let mut i: usize = 0;
    proof {
        model::lemma_properties_view(s@);
        assert(all.take(0).len() == 0);
    }
    while i < s.len()
        invariant
            i <= s@.len() == all.len(),
            all == model::properties_view(s@),
            model::properties_view(out@) == renamed_all(all.take(i as int), from@, to@),
            count == as_count(uses_in_all(all.take(i as int), from@)),
        decreases s@.len() - i,
    {
        let (p, n) = remap_property(&s[i], from, to);
        proof {
            model::lemma_properties_view(s@);
            assert(all[i as int] == model::property_view(s@[i as int]));
            assert(all.take(i + 1).drop_last() =~= all.take(i as int));
            assert(all.take(i + 1).last() == all[i as int]);
            model::lemma_properties_push(out@, p);
        }
        out.push(p);
        count =
        plus(
            count,
            n,
            Ghost(uses_in_all(all.take(i as int), from@)),
            Ghost(uses(all[i as int], from@)),
        );
        i = i + 1;
    }
    assert(all.take(all.len() as int) =~= all);
    (out, count)
}

/// A value with one namespace URI replaced throughout, and how often it was.
fn remap_value(v: &XmpValue, from: &str, to: &str) -> (r: (XmpValue, usize))
    ensures
        r.0@ == renamed_value(v@, from@, to@),
        r.1 == as_count(uses_in_value(v@, from@)),
    decreases *v,
{
    match v {
        XmpValue::Simple(text) => (XmpValue::Simple(text.clone()), 0),
        XmpValue::Uri(uri) => (XmpValue::Uri(uri.clone()), 0),
        XmpValue::Structured(fields) => {
            let (fields, n) = remap_properties(fields, from, to);
            (XmpValue::Structured(fields), n)
        },
        XmpValue::Array(XmpArray::Bag(items)) => {
            let (items, n) = remap_items(items, from, to);
            (XmpValue::Array(XmpArray::Bag(items)), n)
        },
        XmpValue::Array(XmpArray::Sequence(items)) => {
            let (items, n) = remap_items(items, from, to);
            (XmpValue::Array(XmpArray::Sequence(items)), n)
        },
        XmpValue::Array(XmpArray::Alt(items)) => {
            let (items, n) = remap_items(items, from, to);
            (XmpValue::Array(XmpArray::Alt(items)), n)
        },
    }
}

/// Items with one namespace URI replaced throughout, and how often it was.
fn remap_items(s: &Vec<XmpItem>, from: &str, to: &str) -> (r: (Vec<XmpItem>, usize))
    ensures
        model::items_view(r.0@) == renamed_items(model::items_view(s@), from@, to@),
        r.1 == as_count(uses_in_items(model::items_view(s@), from@)),
    decreases *s,
{
    let ghost all = model::items_view(s@);
    let mut out: Vec<XmpItem> = Vec::new();
    let mut count: usize = 0;
    let mut i: usize = 0;
    proof {
        model::lemma_items_view(s@);
        assert(all.take(0).len() == 0);
    }
    while i < s.len()
        invariant
            i <= s@.len() == all.len(),
            all == model::items_view(s@),
            model::items_view(out@) == renamed_items(all.take(i as int), from@, to@),
            count == as_count(uses_in_items(all.take(i as int), from@)),
        decreases s@.len() - i,
    {
        let item = &s[i];
        let (qualifiers, q) = remap_properties(&item.qualifiers, from, to);
        let (value, v) = remap_value(&item.value, from, to);
        let new_item = XmpItem { value, qualifiers };
        proof {
            model::lemma_items_view(s@);
            assert(all[i as int] == item@);
            assert(all.take(i + 1).drop_last() =~= all.take(i as int));
            assert(all.take(i + 1).last() == all[i as int]);
            model::lemma_items_push(out@, new_item);
        }
        out.push(new_item);
        count =
        plus(
            plus(
                count,
                q,
                Ghost(uses_in_items(all.take(i as int), from@)),
                Ghost(uses_in_all(item@.qualifiers, from@)),
            ),
            v,
            Ghost(
                uses_in_items(all.take(i as int), from@) + uses_in_all(item@.qualifiers, from@),
            ),
            Ghost(uses_in_value(item@.value, from@)),
        );
        i = i + 1;
    }
    assert(all.take(all.len() as int) =~= all);
    (out, count)
}

/// Namespaces with one URI replaced.
pub open spec fn renamed_namespaces(
    namespaces: Seq<NamespaceView>,
    from: Seq<char>,
    to: Seq<char>,
) -> Seq<NamespaceView> {
    namespaces.map_values(
        |n: NamespaceView|
            if n.uri == from {
                NamespaceView { uri: to, prefix: n.prefix }
            } else {
                n
            },
    )
}

// ---------------------------------------------------------------------------------------------
// The wrapper of the content
// ---------------------------------------------------------------------------------------------

/// Whether an attribute declares the namespace of the packet wrapper.
pub open spec fn declares_xmpmeta(a: Result<xml::TagAttributeView, Seq<char>>) -> bool {
    a matches Ok(a) && "xmlns"@.is_prefix_of(a.key) && a.value == XMPMETA_NAMESPACE@
}

/// Whether the first start tag at or after token `i` is that of the packet wrapper.
pub open spec fn wrapper_from(tokens: Seq<xml::TokenView>, i: int) -> bool
    decreases tokens.len() - i,
{
    if i < 0 || i >= tokens.len() {
        false
    } else {
        match tokens[i].kind {
            xml::KindView::Start(tag) => tag.local == "xmpmeta"@ && exists|k: int|
                0 <= k < tag.attributes.len() && declares_xmpmeta(#[trigger] tag.attributes[k]),
            xml::KindView::Malformed(_) => false,
            _ => wrapper_from(tokens, i + 1),
        }
    }
}

/// Whether the content of a packet is wrapped in `x:xmpmeta`.
pub open spec fn uses_xmpmeta(content: Seq<char>) -> bool {
    wrapper_from(xml::tokens_from(xml::lexed(content), 0), 0)
}

/// Whether a text begins with the letters `xmlns`.
fn begins_with_xmlns(text: &str) -> (r: bool)
    ensures
        r == "xmlns"@.is_prefix_of(text@),
{
    let chars = chars_of(text);
    let lead = chars_of("xmlns");
    let width: usize = lead.len();
    if chars.len() < width {
        return false;
    }
    let mut i: usize = 0;
    while i < width
        invariant
            i <= width == lead@.len(),
            width <= chars@.len(),
            chars@ == text@,
            lead@ == "xmlns"@,
            forall|j: int| 0 <= j < i ==> chars@[j] == lead@[j],
        decreases width - i,
    {
        if chars[i] != lead[i] {
            assert(text@.subrange(0, width as int)[i as int] != lead@[i as int]);
            return false;
        }
        i = i + 1;
    }
    assert("xmlns"@.is_prefix_of(text@));
    true
}

/// Whether an attribute of a tag declares the namespace of the packet wrapper.
fn tag_declares_xmpmeta(tag: &StartTag) -> (r: bool)
    ensures
        r == exists|k: int|
            0 <= k < tag@.attributes.len() && declares_xmpmeta(#[trigger] tag@.attributes[k]),
{
    let mut k: usize = 0;
    while k < tag.attributes.len()
        invariant
            k <= tag.attributes@.len() == tag@.attributes.len(),
            forall|j: int| 0 <= j < k ==> !declares_xmpmeta(#[trigger] tag@.attributes[j]),
        decreases tag.attributes@.len() - k,
    {
        assert(tag@.attributes[k as int] == error::outcome(tag.attributes@[k as int]));
        if let Ok(a) = &tag.attributes[k] {
            if begins_with_xmlns(a.key.as_str()) && same_text(a.value.as_str(), XMPMETA_NAMESPACE) {
                return true;
            }
        }
        k = k + 1;
    }
    false
}

/// Whether the first tag among some tokens is an `x:xmpmeta` wrapper.
pub fn starts_with_xmpmeta(tokens: &Vec<XmlToken>) -> (r: bool)
    ensures
        r == wrapper_from(xml::tokens_view(tokens@), 0),
{
    let ghost all = xml::tokens_view(tokens@);
    let mut i: usize = 0;
    while i < tokens.len()
        invariant
            i <= tokens@.len() == all.len(),
            all == xml::tokens_view(tokens@),
            wrapper_from(all, 0) == wrapper_from(all, i as int),
        decreases tokens@.len() - i,
    {
        assert(all[i as int] == tokens@[i as int]@);
        match &tokens[i].kind {
            TokenKind::Start(tag) => {
                return same_text(tag.local.as_str(), "xmpmeta") && tag_declares_xmpmeta(tag);
            },
            TokenKind::Malformed(_) => {
                return false;
            },
            _ => {},
        }
        i = i + 1;
    }
    false
}

/// Whether the content of a packet is wrapped in `x:xmpmeta`.
fn packet_uses_xmpmeta(content: &str) -> (r: bool)
    ensures
        r == uses_xmpmeta(content@),
{
    starts_with_xmpmeta(&lex(content))
}

// ---------------------------------------------------------------------------------------------
// The transaction
// ---------------------------------------------------------------------------------------------

/// A graph with properties inserted one after the other.
pub open spec fn merged(meta: Seq<PropertyView>, other: Seq<PropertyView>) -> Seq<PropertyView>
    decreases other.len(),
{
    if other.len() == 0 {
        meta
    } else {
        merged(model::inserted(meta, other[0]), other.drop_first())
    }
}

/// The bytes that a transaction ends in.
pub open spec fn finished(edit: EditView) -> Seq<u8> {
    if edit.meta == edit.source_meta {
        edit.source
    } else {
        let content = edit.decoded.envelope.content;
        edit.decoded.respliced(
            content.start as int,
            content.end as int,
            encode_utf8(writer::body_text(edit.writer(), edit.meta)),
        )
    }
}

impl XmpEdit {
    /// Parses `bytes` and starts an edit transaction.
    ///
    /// # Errors
    ///
    /// Returns an [`XmpError`] when the packet encoding, wrapper, XML, or XMP graph is malformed or
    /// ambiguous.
    pub fn from_packet(bytes: &[u8]) -> (r: Result<Self, XmpError>)
        ensures
            error::outcome(r) == edit_of(bytes@),
            r matches Ok(edit) ==> edit@.well_formed(),
    {
        let decoded = match XmpPacket::scan_with_source(bytes) {
            Ok(decoded) => decoded,
            Err(e) => {
                return Err(e);
            },
        };
        proof {
            text::lemma_text_bytes(decoded@.packet.body);
        }
        let document = match decoded.parse() {
            Ok(document) => document,
            Err(e) => {
                return Err(e);
            },
        };
        let namespaces = prefixed_namespaces(&document.namespaces);
        let meta = document.meta;
        Ok(
            XmpEdit {
                source: copy_all(bytes),
                decoded,
                source_meta: meta.clone(),
                meta,
                namespaces,
            },
        )
    }

    /// The transaction's current property graph.
    #[must_use]
    pub fn meta(&self) -> (r: &XmpMeta)
        ensures
            r@ == self@.meta,
    {
        &self.meta
    }

    /// Mutable access to the transaction's property graph.
    ///
    /// Prefer [`Self::set`], [`Self::remove`], or [`Self::merge`] for common operations. Direct
    /// mutation remains available because [`XmpMeta`] is intentionally a transparent graph.
    pub fn meta_mut(&mut self) -> (r: &mut XmpMeta)
        ensures
            (*r)@ == old(self)@.meta,
            final(self)@ == (EditView { meta: (*final(r))@, ..old(self)@ }),
    {
        &mut self.meta
    }

    /// Inserts or replaces one top-level property.
    pub fn set(&mut self, property: XmpProperty)
        ensures
            final(self)@ == (EditView {
                meta: model::inserted(old(self)@.meta, property@),
                ..old(self)@
            }),
    {
        self.meta.set(property);
    }

    /// Removes one top-level property and reports whether it existed.
    pub fn remove(&mut self, namespace: &str, name: &str) -> (r: bool)
        ensures
            final(self)@ == (EditView {
                meta: model::removed(old(self)@.meta, namespace@, name@),
                ..old(self)@
            }),
            r == (model::position(old(self)@.meta, namespace@, name@) is Some),
    {
        self.meta.remove(namespace, name).is_some()
    }

    /// Replaces one namespace URI throughout property names and qualifiers.
    ///
    /// The lexical prefix that was bound to `from` is retained as the preferred prefix for `to`.
    /// The return value is the number of expanded names changed; zero leaves the transaction
    /// byte-identical when no other edit was made.
    pub fn remap_namespace(&mut self, from: &str, to: &str) -> (r: usize)
        ensures
            from@ == to@ ==> r == 0 && final(self)@ == old(self)@,
            from@ != to@ ==> r == as_count(uses_in_all(old(self)@.meta, from@)) && final(self)@
                == (EditView {
                meta: renamed_all(old(self)@.meta, from@, to@),
                namespaces: renamed_namespaces(old(self)@.namespaces, from@, to@),
                ..old(self)@
            }),
    {
        if same_text(from, to) {
            return 0;
        }
        let ghost all = namespace::namespaces_view(self.namespaces@);
        let mut namespaces: Vec<Namespace> = Vec::new();
        let mut i: usize = 0;
        while i < self.namespaces.len()
            invariant
                i <= self.namespaces@.len() == all.len(),
                *self == *old(self),
                all == namespace::namespaces_view(self.namespaces@),
                namespaces@.len() == i,
                forall|j: int|
                    0 <= j < i ==> #[trigger] namespaces@[j]@ == renamed_namespaces(
                        all,
                        from@,
                        to@,
                    )[j],
            decreases self.namespaces@.len() - i,
        {
            let n = &self.namespaces[i];
            assert(all[i as int] == n@);
            let uri = if same_text(n.uri.as_str(), from) {
                to.to_owned()
            } else {
                n.uri.clone()
            };
            namespaces.push(Namespace { uri, prefix: n.prefix.clone() });
            i = i + 1;
        }
        let (properties, count) = remap_properties(&self.meta.properties, from, to);
        self.meta = XmpMeta { properties };
        self.namespaces = namespaces;
        assert(self@.namespaces =~= renamed_namespaces(all, from@, to@));
        count
    }

    /// Merges all top-level properties from `other`, replacing equal expanded names.
    pub fn merge(&mut self, other: &XmpMeta)
        ensures
            final(self)@ == (EditView {
                meta: merged(old(self)@.meta, other@),
                ..old(self)@
            }),
    {
        let ghost all = other@;
        let ghost start = self@;
        let mut i: usize = 0;
        proof {
            model::lemma_properties_view(other.properties@);
            assert(all.skip(0) =~= all);
        }
        while i < other.properties.len()
            invariant
                i <= other.properties@.len() == all.len(),
                all == other@,
                self@ == (EditView { meta: self@.meta, ..start }),
                merged(start.meta, all) == merged(self@.meta, all.skip(i as int)),
            decreases other.properties@.len() - i,
        {
            proof {
                model::lemma_properties_view(other.properties@);
                assert(all.skip(i as int)[0] == model::property_view(
                    other.properties@[i as int],
                ));
                assert(all.skip(i as int).drop_first() =~= all.skip(i + 1));
            }
            self.meta.set(other.properties[i].clone());
            i = i + 1;
        }
        assert(all.skip(all.len() as int).len() == 0);
    }

    /// Registers a preferred serialization prefix for a namespace URI.
    ///
    /// Registrations affect changed packets only. An unchanged transaction still returns the
    /// exact source bytes. Prefixes are subject to the same validation and collision rules as
    /// [`XmpWriter::with_namespace`].
    pub fn register_namespace(&mut self, namespace: Namespace)
        ensures
            final(self)@ == (EditView {
                namespaces: old(self)@.namespaces.push(namespace@),
                ..old(self)@
            }),
    {
        self.namespaces.push(namespace);
        assert(self@.namespaces =~= old(self)@.namespaces.push(namespace@));
    }

    /// Completes the transaction.
    ///
    /// An unchanged transaction is byte-identical to its input. A changed transaction preserves
    /// the source encoding, BOM choice, packet instructions, and padding while replacing only
    /// the RDF/XML content region with deterministic canonical serialization.
    #[must_use]
    pub fn finish(self) -> (r: Vec<u8>)
        requires
            self@.well_formed(),
        ensures
            r@ == finished(self@),
            self@.meta == self@.source_meta ==> r@ == self@.source,
    {
        if same_properties(&self.meta.properties, &self.source_meta.properties) {
            return self.source;
        }
        let content = self.decoded.envelope.content;
        let source = slice_text(self.decoded.decoded.as_str(), content.start, content.end);
        let wrap = packet_uses_xmpmeta(source);
        let ghost registered = self@.namespaces;
        let mut writer = XmpWriter::new().wrap_xmpmeta(wrap);
        let mut i: usize = 0;
        assert(registered.take(0) =~= Seq::<NamespaceView>::empty());
        while i < self.namespaces.len()
            invariant
                i <= self.namespaces@.len() == registered.len(),
                registered == namespace::namespaces_view(self.namespaces@),
                writer@ == (writer::WriterView {
                    namespaces: registered.take(i as int),
                    wrap_xmpmeta: wrap,
                    writable: true,
                    padding: writer::DEFAULT_PADDING as nat,
                }),
            decreases self.namespaces@.len() - i,
        {
            assert(registered[i as int] == self.namespaces@[i as int]@);
            writer = writer.with_namespace(self.namespaces[i].clone());
            assert(registered.take(i + 1) =~= registered.take(i as int).push(
                registered[i as int],
            ));
            i = i + 1;
        }
        assert(registered.take(registered.len() as int) =~= registered);
        let body = writer.serialize_body(&self.meta);
        proof {
            encode_utf8_valid_utf8(body@);
        }
        self.decoded.resplice(content.start, content.end, body.as_str().as_bytes())
    }
}

// ---------------------------------------------------------------------------------------------
// Laws
// ---------------------------------------------------------------------------------------------

/// A transaction in which nothing was changed ends in its source bytes.
pub proof fn law_unchanged_edit_returns_the_source(bytes: Seq<u8>)
    requires
        edit_of(bytes) is Ok,
    ensures
        finished(edit_of(bytes)->Ok_0) == bytes,
{
}

/// The text of the packet that a transaction that changed the graph ends in.
pub open spec fn finished_text(edit: EditView) -> Seq<char> {
    resplicing::text_with(
        resplicing::parts_of(edit.decoded),
        writer::body_text(edit.writer(), edit.meta),
    )
}

/// A transaction that changed the graph keeps the encoding, the byte-order mark, the packet
/// instructions, the writability and the padding of its source; only the content is rewritten. The
/// one case left out is a source in UTF-16 that has neither a mark nor instructions.
pub proof fn law_changed_edit_keeps_the_envelope(edit: EditView)
    requires
        edit.well_formed(),
        edit.meta != edit.source_meta,
        round_trip::round_trips(edit.writer(), edit.meta),
        resplicing::shows_encoding(edit.decoded),
        encode_utf8(finished_text(edit)).len() <= usize::MAX,
    ensures
        ({
            let d = edit.decoded;
            let start = d.envelope.content.start as int;
            let end = d.envelope.content.end as int;
            let body = writer::body_text(edit.writer(), edit.meta);
            &&& packet::scanned(finished(edit)) matches Ok(e)
            &&& e.encoding == d.encoding
            &&& e.had_bom == d.had_bom
            &&& e.packet == (packet::PacketView { body, ..d.packet })
            &&& e.bytes() == d.bytes().subrange(0, start) + encode_utf8(body) + d.bytes().subrange(
                end,
                d.bytes().len() as int,
            )
            &&& e.envelope.header == d.envelope.header
            &&& e.envelope.trailer is Some == d.envelope.trailer is Some
            &&& decode_utf8(packet::span_bytes(e.bytes(), e.envelope.content)) == body
        }),
{
    let d = edit.decoded;
    round_trip::lemma_body_is_content(edit.writer(), edit.meta);
    text::lemma_text_bytes(d.packet.body);
    if d.packet.body.len() == 0 {
        assert(d.packet.body =~= Seq::empty());
        document::lemma_marks(d.packet.body);
        relexing::lemma_empty_text(d.envelope.content.start as int);
    }
    resplicing::law_replacing_content_keeps_the_envelope(
        edit.source,
        writer::body_text(edit.writer(), edit.meta),
    );
}

/// What a transaction that changed the graph ends in is read into the changed graph.
pub proof fn law_changed_edit_reads_back(edit: EditView)
    requires
        edit.well_formed(),
        edit.meta != edit.source_meta,
        round_trip::round_trips(edit.writer(), edit.meta),
        resplicing::shows_encoding(edit.decoded),
        encode_utf8(finished_text(edit)).len() <= usize::MAX,
        xml::is_sound(writer::body_text(edit.writer(), edit.meta)),
    ensures
        document::graph_in(finished(edit)) == Ok::<Seq<PropertyView>, ErrorView>(edit.meta),
{
    law_changed_edit_keeps_the_envelope(edit);
    let e = packet::scanned(finished(edit))->Ok_0;
    round_trip::law_written_text_reads_back(
        edit.writer(),
        edit.meta,
        e.envelope.content.start as int,
    );
}

/// Renaming a namespace that no name is in changes no property.
pub proof fn law_renaming_an_unused_namespace_changes_nothing(
    meta: Seq<PropertyView>,
    from: Seq<char>,
    to: Seq<char>,
)
    requires
        uses_in_all(meta, from) == 0,
    ensures
        renamed_all(meta, from, to) == meta,
    decreases meta,
{
    if meta.len() > 0 {
        law_renaming_an_unused_namespace_changes_nothing(meta.drop_last(), from, to);
        lemma_renamed_unused(meta.last(), from, to);
        assert(renamed_all(meta, from, to) =~= meta);
    } else {
        assert(renamed_all(meta, from, to) =~= meta);
    }
}

proof fn lemma_renamed_unused(p: PropertyView, from: Seq<char>, to: Seq<char>)
    requires
        uses(p, from) == 0,
    ensures
        renamed(p, from, to) == p,
    decreases p,
{
    law_renaming_an_unused_namespace_changes_nothing(p.qualifiers, from, to);
    lemma_renamed_value_unused(p.value, from, to);
}

proof fn lemma_renamed_value_unused(v: ValueView, from: Seq<char>, to: Seq<char>)
    requires
        uses_in_value(v, from) == 0,
    ensures
        renamed_value(v, from, to) == v,
    decreases v,
{
    match v {
        ValueView::Structured(fields) => {
            law_renaming_an_unused_namespace_changes_nothing(fields, from, to);
        },
        ValueView::Array(_, items) => {
            lemma_renamed_items_unused(items, from, to);
        },
        _ => {},
    }
}

proof fn lemma_renamed_items_unused(s: Seq<ItemView>, from: Seq<char>, to: Seq<char>)
    requires
        uses_in_items(s, from) == 0,
    ensures
        renamed_items(s, from, to) == s,
    decreases s,
{
    if s.len() > 0 {
        lemma_renamed_items_unused(s.drop_last(), from, to);
        law_renaming_an_unused_namespace_changes_nothing(s.last().qualifiers, from, to);
        lemma_renamed_value_unused(s.last().value, from, to);
        assert(renamed_items(s, from, to) =~= s);
    } else {
        assert(renamed_items(s, from, to) =~= s);
    }
}

/// After a namespace was renamed no name is in it any more.
pub proof fn law_a_renamed_namespace_is_gone(
    meta: Seq<PropertyView>,
    from: Seq<char>,
    to: Seq<char>,
)
    requires
        from != to,
    ensures
        uses_in_all(renamed_all(meta, from, to), from) == 0,
    decreases meta,
{
    if meta.len() > 0 {
        let after = renamed_all(meta, from, to);
        law_a_renamed_namespace_is_gone(meta.drop_last(), from, to);
        lemma_renamed_gone(meta.last(), from, to);
        assert(after.drop_last() =~= renamed_all(meta.drop_last(), from, to));
    }
}

proof fn lemma_renamed_gone(p: PropertyView, from: Seq<char>, to: Seq<char>)
    requires
        from != to,
    ensures
        uses(renamed(p, from, to), from) == 0,
    decreases p,
{
    law_a_renamed_namespace_is_gone(p.qualifiers, from, to);
    lemma_renamed_value_gone(p.value, from, to);
}

proof fn lemma_renamed_value_gone(v: ValueView, from: Seq<char>, to: Seq<char>)
    requires
        from != to,
    ensures
        uses_in_value(renamed_value(v, from, to), from) == 0,
    decreases v,
{
    match v {
        ValueView::Structured(fields) => {
            law_a_renamed_namespace_is_gone(fields, from, to);
        },
        ValueView::Array(_, items) => {
            lemma_renamed_items_gone(items, from, to);
        },
        _ => {},
    }
}

proof fn lemma_renamed_items_gone(s: Seq<ItemView>, from: Seq<char>, to: Seq<char>)
    requires
        from != to,
    ensures
        uses_in_items(renamed_items(s, from, to), from) == 0,
    decreases s,
{
    if s.len() > 0 {
        let after = renamed_items(s, from, to);
        lemma_renamed_items_gone(s.drop_last(), from, to);
        law_a_renamed_namespace_is_gone(s.last().qualifiers, from, to);
        lemma_renamed_value_gone(s.last().value, from, to);
        assert(after.drop_last() =~= renamed_items(s.drop_last(), from, to));
    }
}

/// What was merged in last is what every name of it finds.
pub proof fn law_merged_properties_are_found(
    meta: Seq<PropertyView>,
    other: Seq<PropertyView>,
    i: int,
)
    requires
        0 <= i < other.len(),
        model::unique_names(other),
    ensures
        ({
            let after = merged(meta, other);
            model::position(after, other[i].namespace, other[i].name) matches Some(k) && after[k]
                == other[i]
        }),
    decreases other.len(),
{
    let p = other[i];
    let next = model::inserted(meta, other[0]);
    let rest = other.drop_first();
    assert forall|j: int, k: int| 0 <= j < k < rest.len() implies !model::is_named(
        #[trigger] rest[k],
        (#[trigger] rest[j]).namespace,
        rest[j].name,
    ) by {
        assert(rest[j] == other[j + 1] && rest[k] == other[k + 1]);
    }
    if i > 0 {
        assert(rest[i - 1] == other[i]);
        law_merged_properties_are_found(next, rest, i - 1);
    } else {
        model::law_get_after_set(meta, p, p.namespace, p.name);
        assert forall|k: int| 0 <= k < rest.len() implies !model::is_named(
            #[trigger] rest[k],
            p.namespace,
            p.name,
        ) by {
            assert(rest[k] == other[k + 1]);
            assert(other[0].name == p.name);
        }
        lemma_merge_keeps(next, rest, p.namespace, p.name);
    }
}

/// Merging in other names keeps what a name finds.
proof fn lemma_merge_keeps(
    meta: Seq<PropertyView>,
    other: Seq<PropertyView>,
    namespace: Seq<char>,
    name: Seq<char>,
)
    requires
        model::position(meta, namespace, name) is Some,
        forall|k: int|
            0 <= k < other.len() ==> !model::is_named(#[trigger] other[k], namespace, name),
    ensures
        ({
            let after = merged(meta, other);
            model::position(after, namespace, name) matches Some(k) && after[k]
                == meta[model::position(meta, namespace, name)->Some_0]
        }),
    decreases other.len(),
{
    if other.len() > 0 {
        assert(!model::is_named(other[0], namespace, name));
        model::law_get_after_set(meta, other[0], namespace, name);
        let rest = other.drop_first();
        assert forall|k: int| 0 <= k < rest.len() implies !model::is_named(
            #[trigger] rest[k],
            namespace,
            name,
        ) by {
            assert(rest[k] == other[k + 1]);
        }
        lemma_merge_keeps(model::inserted(meta, other[0]), rest, namespace, name);
    }
}

/// Merging keeps what every name that is not merged in finds, and a name that neither graph has
/// finds nothing.
pub proof fn law_merging_keeps_the_other_properties(
    meta: Seq<PropertyView>,
    other: Seq<PropertyView>,
    namespace: Seq<char>,
    name: Seq<char>,
)
    requires
        forall|k: int|
            0 <= k < other.len() ==> (#[trigger] other[k]).namespace != namespace || other[k].name
                != name,
    ensures
        match model::position(meta, namespace, name) {
            Some(i) => model::position(merged(meta, other), namespace, name) == Some(i) && merged(
                meta,
                other,
            )[i] == meta[i],
            None => model::position(merged(meta, other), namespace, name) is None,
        },
    decreases other.len(),
{
    if other.len() > 0 {
        let next = model::inserted(meta, other[0]);
        let rest = other.drop_first();
        assert(!model::is_named(other[0], namespace, name));
        model::law_get_after_set(meta, other[0], namespace, name);
        assert forall|k: int| 0 <= k < rest.len() implies (#[trigger] rest[k]).namespace
            != namespace || rest[k].name != name by {
            assert(rest[k] == other[k + 1]);
        }
        law_merging_keeps_the_other_properties(next, rest, namespace, name);
    }
}

/// Merging one graph after another is merging both, and merging a graph of one property is setting
/// that property.
pub proof fn law_merging_sets_each_property(
    meta: Seq<PropertyView>,
    first: Seq<PropertyView>,
    second: Seq<PropertyView>,
    p: PropertyView,
)
    ensures
        merged(meta, first + second) == merged(merged(meta, first), second),
        merged(meta, seq![p]) == model::inserted(meta, p),
    decreases first.len(),
{
    assert(seq![p].drop_first() =~= Seq::<PropertyView>::empty());
    assert(seq![p][0] == p);
    assert(merged(model::inserted(meta, p), Seq::<PropertyView>::empty()) == model::inserted(
        meta,
        p,
    ));
    if first.len() == 0 {
        assert(first + second =~= second);
    } else {
        law_merging_sets_each_property(
            model::inserted(meta, first[0]),
            first.drop_first(),
            second,
            p,
        );
        assert((first + second).drop_first() =~= first.drop_first() + second);
    }
}

/// Every prefix that a source binds is preferred for its namespace, in the order of the bindings.
/// The default namespace has no prefix to prefer.
pub proof fn law_bound_prefixes_are_preferred(a: Seq<BindingView>, b: Seq<BindingView>, x: BindingView)
    ensures
        prefixed(a + b) == prefixed(a) + prefixed(b),
        prefixed(seq![x]) == match x.prefix {
            Some(prefix) => seq![NamespaceView { uri: x.namespace, prefix }],
            None => Seq::empty(),
        },
    decreases b.len(),
{
    assert(seq![x].drop_last() =~= Seq::<BindingView>::empty());
    assert(seq![x].last() == x);
    assert(prefixed(Seq::<BindingView>::empty()) =~= Seq::empty());
    assert(prefixed(seq![x]) =~= match x.prefix {
        Some(prefix) => seq![NamespaceView { uri: x.namespace, prefix }],
        None => Seq::empty(),
    });
    if b.len() == 0 {
        assert(a + b =~= a);
        assert(prefixed(b) =~= Seq::empty());
        assert(prefixed(a + b) =~= prefixed(a) + prefixed(b));
    } else {
        law_bound_prefixes_are_preferred(a, b.drop_last(), x);
        assert((a + b).drop_last() =~= a + b.drop_last());
        assert((a + b).last() == b.last());
        assert(prefixed(a + b) =~= prefixed(a) + prefixed(b));
    }
}

/// The content of a packet is wrapped just where its first start tag has the local name `xmpmeta`
/// and declares the namespace of the wrapper, and nothing before it is malformed.
pub proof fn law_the_first_tag_tells_the_wrapper(tokens: Seq<xml::TokenView>, from: int, k: int)
    requires
        0 <= from <= k < tokens.len(),
        tokens[k].kind is Start || tokens[k].kind is Malformed,
        forall|i: int|
            from <= i < k ==> !((#[trigger] tokens[i]).kind is Start) && !(
            tokens[i].kind is Malformed),
    ensures
        wrapper_from(tokens, from) == match tokens[k].kind {
            xml::KindView::Start(tag) => tag.local == "xmpmeta"@ && exists|i: int|
                0 <= i < tag.attributes.len() && declares_xmpmeta(#[trigger] tag.attributes[i]),
            _ => false,
        },
    decreases k - from,
{
    if from < k {
        assert(!(tokens[from].kind is Start) && !(tokens[from].kind is Malformed));
        law_the_first_tag_tells_the_wrapper(tokens, from + 1, k);
    }
}

/// A transaction starts from the graph that the packet is read into, and with the prefixes that the
/// packet binds; it fails just where the packet cannot be read.
pub proof fn law_transactions_start_from_what_is_read(bytes: Seq<u8>)
    ensures
        match edit_of(bytes) {
            Ok(edit) => {
                &&& document::graph_in(bytes) == Ok::<Seq<PropertyView>, ErrorView>(edit.meta)
                &&& edit.source_meta == edit.meta
                &&& edit.source == bytes
            },
            Err(error) => document::graph_in(bytes) == Err::<Seq<PropertyView>, ErrorView>(error),
        },
{
}

/// A transaction that changed the graph writes it inside an `x:xmpmeta` wrapper just where the first
/// tag of the source was one, with the prefixes of the transaction, in place of the content.
pub proof fn law_the_wrapper_is_kept(edit: EditView, k: int)
    requires
        edit.meta != edit.source_meta,
        ({
            let content = edit.decoded.envelope.content;
            let tokens = xml::tokens_from(
                xml::lexed(decode_utf8(packet::span_bytes(edit.decoded.bytes(), content))),
                0,
            );
            &&& 0 <= k < tokens.len()
            &&& tokens[k].kind is Start
            &&& forall|i: int|
                0 <= i < k ==> !((#[trigger] tokens[i]).kind is Start) && !(
                tokens[i].kind is Malformed)
        }),
    ensures
        ({
            let content = edit.decoded.envelope.content;
            let tokens = xml::tokens_from(
                xml::lexed(decode_utf8(packet::span_bytes(edit.decoded.bytes(), content))),
                0,
            );
            let tag = tokens[k].kind->Start_0;
            exists|w: writer::WriterView|
                {
                    &&& w.namespaces == edit.namespaces
                    &&& w.wrap_xmpmeta <==> tag.local == "xmpmeta"@ && exists|i: int|
                        0 <= i < tag.attributes.len() && ((
                        #[trigger] tag.attributes[i]) matches Ok(a) && "xmlns"@.is_prefix_of(a.key)
                            && a.value == XMPMETA_NAMESPACE@)
                    &&& finished(edit) == edit.decoded.respliced(
                        content.start as int,
                        content.end as int,
                        encode_utf8(#[trigger] writer::body_text(w, edit.meta)),
                    )
                }
        }),
{
    let content = edit.decoded.envelope.content;
    let tokens = xml::tokens_from(
        xml::lexed(decode_utf8(packet::span_bytes(edit.decoded.bytes(), content))),
        0,
    );
    let tag = tokens[k].kind->Start_0;
    law_the_first_tag_tells_the_wrapper(tokens, 0, k);
    if edit.writer().wrap_xmpmeta {
        let i = choose|i: int|
            0 <= i < tag.attributes.len() && declares_xmpmeta(#[trigger] tag.attributes[i]);
        assert(tag.attributes[i] is Ok);
    } else if exists|i: int|
        0 <= i < tag.attributes.len() && ((#[trigger] tag.attributes[i]) matches Ok(a)
            && "xmlns"@.is_prefix_of(a.key) && a.value == XMPMETA_NAMESPACE@) {
        let i = choose|i: int|
            0 <= i < tag.attributes.len() && ((#[trigger] tag.attributes[i]) matches Ok(a)
                && "xmlns"@.is_prefix_of(a.key) && a.value == XMPMETA_NAMESPACE@);
        assert(declares_xmpmeta(tag.attributes[i]));
    }
    assert(finished(edit) == edit.decoded.respliced(
        content.start as int,
        content.end as int,
        encode_utf8(writer::body_text(edit.writer(), edit.meta)),
    ));
}

} // verus!
