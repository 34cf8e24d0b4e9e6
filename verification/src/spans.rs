//! The places that a document records can slice the text that it was read from.

use vstd::prelude::*;
use vstd::string::*;
use vstd::utf8::*;

use crate::document;
use crate::document::{DescriptionView, DocumentView, LocationView, Reading, SeenView};
use crate::error::ErrorView;
use crate::packet;
use crate::packet::XmpSourceSpan;
use crate::reader;
use crate::text;
use crate::tree;
use crate::tree::{AttrView, BindingView, ElementView};
use crate::xml;
use crate::xml::{EventView, KindView, TokenView, MAX_DEPTH};

verus! {

/// Whether a span lies between two characters of a text whose first byte is at `base`, begins at a
/// `<` and ends behind a `>`.
pub open spec fn fits(b: Seq<u8>, base: int, span: XmpSourceSpan) -> bool {
    &&& base <= span.start < span.end <= base + b.len()
    &&& is_char_boundary(b, span.start - base)
    &&& is_char_boundary(b, span.end - base)
    &&& b[span.start - base] == 0x3C
    &&& b[span.end - base - 1] == 0x3E
}

/// Whether the spans of locations fit.
pub open spec fn locations_fit(b: Seq<u8>, base: int, s: Seq<LocationView>) -> bool {
    forall|i: int| 0 <= i < s.len() ==> fits(b, base, (#[trigger] s[i]).span)
}

/// Whether the spans of bindings fit.
pub open spec fn bindings_fit(b: Seq<u8>, base: int, s: Seq<BindingView>) -> bool {
    forall|i: int| 0 <= i < s.len() ==> fits(b, base, (#[trigger] s[i]).span)
}

/// Whether the spans of descriptions fit.
pub open spec fn descriptions_fit(b: Seq<u8>, base: int, s: Seq<DescriptionView>) -> bool {
    forall|i: int| 0 <= i < s.len() ==> fits(b, base, (#[trigger] s[i]).span)
}

/// Whether every span of a document fits.
pub open spec fn document_fits(b: Seq<u8>, base: int, d: DocumentView) -> bool {
    &&& locations_fit(b, base, d.properties)
    &&& locations_fit(b, base, d.nodes)
    &&& bindings_fit(b, base, d.namespaces)
    &&& descriptions_fit(b, base, d.descriptions)
}

/// Whether every span of an error fits.
pub open spec fn error_fits(b: Seq<u8>, base: int, error: ErrorView) -> bool {
    match error {
        ErrorView::DuplicateProperty { first, duplicate, .. } => fits(b, base, first) && fits(
            b,
            base,
            duplicate,
        ),
        _ => true,
    }
}

/// Whether every span of a document, or of the error in its place, fits.
pub open spec fn outcome_fits(b: Seq<u8>, base: int, r: Result<DocumentView, ErrorView>) -> bool {
    match r {
        Ok(d) => document_fits(b, base, d),
        Err(error) => error_fits(b, base, error),
    }
}

// ---------------------------------------------------------------------------------------------
// Tokens
// ---------------------------------------------------------------------------------------------

/// Whether a token lies between two characters; where it is malformed, only its start is known to.
spec fn token_fits(b: Seq<u8>, t: TokenView) -> bool {
    &&& t.start <= t.end <= b.len()
    &&& is_char_boundary(b, t.start as int)
    &&& t.kind is Malformed || is_char_boundary(b, t.end as int)
    &&& t.kind is Start ==> t.start < t.end && b[t.start as int] == 0x3C && b[t.end - 1] == 0x3E
    &&& t.kind is End ==> t.end > 0 && b[t.end - 1] == 0x3E
}

/// Whether tokens lie between characters, one after the other.
spec fn tokens_fit(b: Seq<u8>, tokens: Seq<TokenView>) -> bool {
    &&& forall|i: int| 0 <= i < tokens.len() ==> token_fits(b, #[trigger] tokens[i])
    &&& forall|i: int|
        0 <= i < tokens.len() - 1 ==> (#[trigger] tokens[i]).end <= tokens[i + 1].start
}

/// The tokens of a text lie between its characters.
proof fn lemma_tokens(xml: Seq<char>, i: int)
    requires
        xml::is_sound(xml),
        xml.len() > 0 ==> xml[0] != '\u{feff}',
        0 <= i < xml::lexed(xml).len() - 1,
    ensures
        tokens_fit(encode_utf8(xml), xml::tokens_from(xml::lexed(xml), i)),
        xml::tokens_from(xml::lexed(xml), i).len() > 0 ==> xml::tokens_from(
            xml::lexed(xml),
            i,
        )[0].start == xml::lexed(xml)[i].position,
    decreases xml::lexed(xml).len() - i,
{
    let trace = xml::lexed(xml);
    let b = encode_utf8(xml);
    text::lemma_text_bytes(xml);
    is_char_boundary_start_end_of_seq(b);
    assert(xml::steps_at(trace, i));
    if xml.len() == 0 {
        assert(encode_utf8(xml) =~= Seq::<u8>::empty());
        assert(trace[i].position == 0) by {
            if i > 0 {
                assert(trace[i].position <= b.len());
            }
        }
        assert(trace[i + 1].position <= b.len());
    }
    if i > 0 {
        assert(xml::steps_at(trace, i - 1));
        assert(trace[i].outcome is Ok);
    }
    assert(trace[i].position <= b.len() && is_char_boundary(b, trace[i].position as int));
    let tokens = xml::tokens_from(trace, i);
    if trace[i].open.len() < MAX_DEPTH && trace[i + 1].outcome != Ok::<EventView, Seq<char>>(
        EventView::Eof,
    ) {
        let rest = xml::tokens_from(trace, i + 1);
        assert(tokens.len() == rest.len() + 1);
        assert(token_fits(b, tokens[0]));
        if i + 2 < trace.len() {
            lemma_tokens(xml, i + 1);
        }
        assert forall|k: int| 0 <= k < tokens.len() implies token_fits(b, #[trigger] tokens[k]) by {
            if k > 0 {
                assert(tokens[k] == rest[k - 1]);
            }
        }
        assert forall|k: int| 0 <= k < tokens.len() - 1 implies (#[trigger] tokens[k]).end
            <= tokens[k + 1].start by {
            assert(tokens[k + 1] == rest[k]);
            if k > 0 {
                assert(tokens[k] == rest[k - 1]);
            }
        }
    }
}

// ---------------------------------------------------------------------------------------------
// Elements
// ---------------------------------------------------------------------------------------------

/// Whether the spans of an element, without its children, fit.
spec fn element_fits(b: Seq<u8>, base: int, e: ElementView) -> bool {
    fits(b, base, e.span) && fits(b, base, e.tag) && bindings_fit(b, base, e.bindings)
}

/// Whether the spans of an element and its descendants fit.
spec fn tree_fits(b: Seq<u8>, base: int, e: ElementView) -> bool
    decreases e,
{
    element_fits(b, base, e) && trees_fit(b, base, e.children)
}

/// Whether the spans of some elements and their descendants fit.
spec fn trees_fit(b: Seq<u8>, base: int, s: Seq<ElementView>) -> bool
    decreases s,
{
    if s.len() == 0 {
        true
    } else {
        trees_fit(b, base, s.drop_last()) && tree_fits(b, base, s.last())
    }
}

/// Where elements fit, each of them does.
proof fn lemma_each_fits(b: Seq<u8>, base: int, s: Seq<ElementView>, i: int)
    requires
        trees_fit(b, base, s),
        0 <= i < s.len(),
    ensures
        tree_fits(b, base, s[i]),
    decreases s.len(),
{
    if i < s.len() - 1 {
        lemma_each_fits(b, base, s.drop_last(), i);
        assert(s.drop_last()[i] == s[i]);
    }
}

/// The bindings of a start tag are placed at the tag, and what is wrong with it has no place.
pub proof fn lemma_sorted(
    attributes: Seq<Result<xml::TagAttributeView, Seq<char>>>,
    tag: XmpSourceSpan,
)
    ensures
        tree::sorted_attributes(attributes, tag) matches Ok((_, bindings)) ==> forall|i: int|
            0 <= i < bindings.len() ==> (#[trigger] bindings[i]).span == tag,
        tree::sorted_attributes(attributes, tag) matches Err(error) ==> !(
        error is DuplicateProperty),
    decreases attributes.len(),
{
    if attributes.len() > 0 {
        lemma_sorted(attributes.drop_last(), tag);
    }
}

/// Whether open elements fit and begin before `place`.
spec fn open_fits(b: Seq<u8>, base: int, open: Seq<ElementView>, place: int) -> bool {
    forall|i: int|
        0 <= i < open.len() ==> tree_fits(b, base, #[trigger] open[i]) && open[i].span.start
            < place
}

/// The tree that is made of tokens fits where they do.
proof fn lemma_assembled(
    b: Seq<u8>,
    tokens: Seq<TokenView>,
    i: int,
    base: int,
    open: Seq<ElementView>,
    root: Option<ElementView>,
)
    requires
        tokens_fit(b, tokens),
        0 <= i,
        0 <= base,
        base + b.len() <= usize::MAX,
        i < tokens.len() ==> open_fits(b, base, open, base + tokens[i].start),
        root matches Some(e) ==> tree_fits(b, base, e),
    ensures
        match tree::assembled(tokens, i, base, open, root) {
            Ok(e) => tree_fits(b, base, e),
            Err(error) => !(error is DuplicateProperty),
        },
    decreases tokens.len() - i,
{
    if i < tokens.len() {
        let end = base + tokens[i].end;
        assert(token_fits(b, tokens[i]));
        if i + 1 < tokens.len() {
            assert(tokens[i].end <= tokens[i + 1].start);
        }
        match tokens[i].kind {
            KindView::Malformed(_) => {},
            KindView::Other => {
                lemma_assembled(b, tokens, i + 1, base, open, root);
            },
            KindView::Start(tag) => {
                let place = packet::span(base + tokens[i].start, end);
                lemma_sorted(tag.attributes, place);
                match tree::started(tag, place) {
                    Err(_) => {},
                    Ok(e) => {
                        assert(tree_fits(b, base, e));
                        assert(open_fits(b, base, open.push(e), end));
                        lemma_assembled(b, tokens, i + 1, base, open.push(e), root);
                    },
                }
            },
            KindView::Text(text) => {
                if open.len() == 0 {
                    lemma_assembled(b, tokens, i + 1, base, open, root);
                } else {
                    let last = tree::with_text(open.last(), text);
                    let after = open.drop_last().push(last);
                    assert(tree_fits(b, base, open[open.len() - 1]));
                    assert(tree_fits(b, base, last));
                    assert(open_fits(b, base, after, end));
                    lemma_assembled(b, tokens, i + 1, base, after, root);
                }
            },
            KindView::End => {
                if open.len() > 0 {
                    let done = tree::closed(open.last(), end);
                    assert(tree_fits(b, base, open[open.len() - 1]));
                    assert(tree_fits(b, base, done));
                    if open.len() == 1 {
                        if root is None {
                            lemma_assembled(b, tokens, i + 1, base, Seq::empty(), Some(done));
                        }
                    } else {
                        let outer = open.drop_last();
                        let parent = tree::with_child(outer.last(), done);
                        assert(tree_fits(b, base, open[open.len() - 2]));
                        assert(parent.children.drop_last() =~= outer.last().children);
                        assert(tree_fits(b, base, parent));
                        let after = outer.drop_last().push(parent);
                        assert(open_fits(b, base, after, end));
                        lemma_assembled(b, tokens, i + 1, base, after, root);
                    }
                }
            },
        }
    }
}

/// The namespace bindings of a tree that fits do too.
proof fn lemma_bindings(b: Seq<u8>, base: int, e: ElementView)
    requires
        tree_fits(b, base, e),
    ensures
        bindings_fit(b, base, document::bindings_in(e)),
    decreases e,
{
    lemma_bindings_among(b, base, e.children);
}

proof fn lemma_bindings_among(b: Seq<u8>, base: int, s: Seq<ElementView>)
    requires
        trees_fit(b, base, s),
    ensures
        bindings_fit(b, base, document::bindings_among(s)),
    decreases s,
{
    if s.len() > 0 {
        lemma_bindings_among(b, base, s.drop_last());
        lemma_bindings(b, base, s.last());
    }
}

/// The attributes of an element are placed at its start tag.
proof fn lemma_attribute_nodes(b: Seq<u8>, base: int, e: ElementView, attrs: Seq<AttrView>)
    requires
        fits(b, base, e.tag),
    ensures
        locations_fit(b, base, document::attribute_nodes(e, attrs)),
    decreases attrs.len(),
{
    if attrs.len() > 0 {
        lemma_attribute_nodes(b, base, e, attrs.drop_last());
    }
}

/// The data nodes of a tree that fits do too.
proof fn lemma_nodes(b: Seq<u8>, base: int, e: ElementView)
    requires
        tree_fits(b, base, e),
    ensures
        locations_fit(b, base, document::nodes_in(e)),
    decreases e,
{
    lemma_attribute_nodes(b, base, e, e.attrs);
    lemma_nodes_among(b, base, e.children);
}

proof fn lemma_nodes_among(b: Seq<u8>, base: int, s: Seq<ElementView>)
    requires
        trees_fit(b, base, s),
    ensures
        locations_fit(b, base, document::nodes_among(s)),
    decreases s,
{
    if s.len() > 0 {
        lemma_nodes_among(b, base, s.drop_last());
        lemma_nodes(b, base, s.last());
    }
}

// ---------------------------------------------------------------------------------------------
// Documents
// ---------------------------------------------------------------------------------------------

/// Whether the spans of what has been read of a document fit.
spec fn reading_fits(b: Seq<u8>, base: int, r: Reading) -> bool {
    &&& locations_fit(b, base, r.properties)
    &&& descriptions_fit(b, base, r.descriptions)
    &&& forall|i: int| 0 <= i < r.seen.len() ==> fits(b, base, (#[trigger] r.seen[i]).span)
}

/// Whether the spans of what has been read, or of the error in its place, fit.
spec fn read_fits(b: Seq<u8>, base: int, r: Result<Reading, ErrorView>) -> bool {
    match r {
        Ok(read) => reading_fits(b, base, read),
        Err(error) => error_fits(b, base, error),
    }
}

/// Only a name that is declared twice is reported with places; values are not.
proof fn lemma_value_errors(e: reader::Shape)
    ensures
        reader::value_of(e) matches Err(error) ==> !(error is DuplicateProperty),
    decreases e, 4int,
{
    lemma_fields_errors(e);
    if e.children.len() == 1 {
        lemma_node_errors(e.children[0]);
    }
}

proof fn lemma_fields_errors(e: reader::Shape)
    ensures
        reader::fields_of(e) matches Err(error) ==> !(error is DuplicateProperty),
    decreases e, 1int,
{
    lemma_properties_errors(e.children);
}

pub proof fn lemma_property_errors(e: reader::Shape)
    ensures
        reader::property_of(e) matches Err(error) ==> !(error is DuplicateProperty),
    decreases e, 5int,
{
    lemma_value_errors(e);
}

proof fn lemma_properties_errors(s: Seq<reader::Shape>)
    ensures
        reader::properties_of(s) matches Err(error) ==> !(error is DuplicateProperty),
        reader::qualifiers_among(s) matches Err(error) ==> !(error is DuplicateProperty),
        reader::items_of(s) matches Err(error) ==> !(error is DuplicateProperty),
    decreases s, 0int,
{
    if s.len() > 0 {
        lemma_property_errors(s[0]);
        lemma_value_errors(s[0]);
        assert(reader::item_of(s[0]) matches Err(error) ==> !(error is DuplicateProperty));
        lemma_properties_errors(s.drop_first());
    }
}

proof fn lemma_node_errors(n: reader::Shape)
    ensures
        reader::node_value(n) matches Err(error) ==> !(error is DuplicateProperty),
    decreases n, 3int,
{
    lemma_properties_errors(n.children);
    lemma_fields_errors(n);
    reader::lemma_value_from(n.children, 0);
    if let Some(k) = reader::value_from(n.children, 0) {
        lemma_value_errors(n.children[k]);
    }
}

/// A name that was declared is found at a place that fits.
proof fn lemma_seen(
    b: Seq<u8>,
    base: int,
    seen: Seq<SeenView>,
    namespace: Seq<char>,
    name: Seq<char>,
    from: int,
)
    requires
        forall|i: int| 0 <= i < seen.len() ==> fits(b, base, (#[trigger] seen[i]).span),
    ensures
        document::seen_from(seen, namespace, name, from) matches Some(span) ==> fits(b, base, span),
    decreases seen.len() - from,
{
    if 0 <= from < seen.len() {
        lemma_seen(b, base, seen, namespace, name, from + 1);
    }
}

/// One more property keeps the spans fitting.
proof fn lemma_noted(
    b: Seq<u8>,
    base: int,
    so_far: Reading,
    p: crate::model::PropertyView,
    location: LocationView,
    span: XmpSourceSpan,
)
    requires
        reading_fits(b, base, so_far),
        fits(b, base, location.span),
        fits(b, base, span),
    ensures
        read_fits(b, base, document::noted(so_far, p, location, span)),
{
    lemma_seen(b, base, so_far.seen, p.namespace, p.name, 0);
}

proof fn lemma_after_attributes(b: Seq<u8>, base: int, so_far: Reading, e: ElementView, i: int)
    requires
        reading_fits(b, base, so_far),
        element_fits(b, base, e),
    ensures
        read_fits(b, base, document::after_attributes(so_far, e, i)),
    decreases e.attrs.len() - i,
{
    if 0 <= i < e.attrs.len() {
        match reader::data_property(document::shape_attr(e.attrs[i])) {
            None => {
                lemma_after_attributes(b, base, so_far, e, i + 1);
            },
            Some(p) => {
                let location = document::attribute_location(e, e.attrs[i], p);
                lemma_noted(b, base, so_far, p, location, e.span);
                if let Ok(next) = document::noted(so_far, p, location, e.span) {
                    lemma_after_attributes(b, base, next, e, i + 1);
                }
            },
        }
    }
}

proof fn lemma_after_children(b: Seq<u8>, base: int, so_far: Reading, e: ElementView, i: int)
    requires
        reading_fits(b, base, so_far),
        trees_fit(b, base, e.children),
    ensures
        read_fits(b, base, document::after_children(so_far, e, i)),
    decreases e.children.len() - i,
{
    if 0 <= i < e.children.len() {
        let child = e.children[i];
        lemma_each_fits(b, base, e.children, i);
        lemma_property_errors(reader::shape(child));
        if let Ok(p) = reader::property_of(reader::shape(child)) {
            let location = LocationView {
                namespace: p.namespace,
                name: p.name,
                prefix: child.prefix,
                form: document::XmpPropertyForm::Element,
                span: child.span,
            };
            lemma_noted(b, base, so_far, p, location, child.span);
            if let Ok(next) = document::noted(so_far, p, location, child.span) {
                lemma_after_children(b, base, next, e, i + 1);
            }
        }
    }
}

proof fn lemma_after_descriptions(
    b: Seq<u8>,
    base: int,
    so_far: Reading,
    rdf: ElementView,
    i: int,
)
    requires
        reading_fits(b, base, so_far),
        trees_fit(b, base, rdf.children),
    ensures
        read_fits(b, base, document::after_descriptions(so_far, rdf, i)),
    decreases rdf.children.len() - i,
{
    if 0 <= i < rdf.children.len() {
        let e = rdf.children[i];
        lemma_each_fits(b, base, rdf.children, i);
        let started = Reading {
            descriptions: so_far.descriptions.push(document::description_of(e)),
            ..so_far
        };
        assert(reading_fits(b, base, started));
        lemma_after_attributes(b, base, started, e, 0);
        if let Ok(next) = document::after_attributes(started, e, 0) {
            lemma_after_children(b, base, next, e, 0);
        }
        if document::is_named(e, crate::namespace::RDF_NAMESPACE@, "Description"@) {
            if let Ok(next) = document::after_description(so_far, e) {
                lemma_after_descriptions(b, base, next, rdf, i + 1);
            }
        }
    }
}

/// The index that was found is one.
proof fn lemma_rdf_from(s: Seq<ElementView>, from: int)
    ensures
        document::rdf_from(s, from) matches Some(i) ==> 0 <= i < s.len(),
    decreases s.len() - from,
{
    if 0 <= from < s.len() {
        lemma_rdf_from(s, from + 1);
    }
}

/// The document of a tree that fits does too.
proof fn lemma_interpreted(b: Seq<u8>, base: int, root: ElementView)
    requires
        tree_fits(b, base, root),
    ensures
        outcome_fits(b, base, document::interpreted(root)),
{
    lemma_nodes(b, base, root);
    lemma_bindings(b, base, root);
    if let Some(rdf) = document::rdf_of(root) {
        lemma_rdf_from(root.children, 0);
        if let Some(i) = document::rdf_from(root.children, 0) {
            lemma_each_fits(b, base, root.children, i);
        }
        assert(tree_fits(b, base, rdf));
        lemma_after_descriptions(b, base, document::nothing_read(), rdf, 0);
    }
}

/// Every span that a document, or the error in its place, records lies between two characters of
/// the text that it was read from, begins at a `<` and ends behind a `>`.
pub proof fn law_spans_slice_the_text(xml: Seq<char>, base: int)
    requires
        document::is_sound(xml),
        0 <= base,
        base + encode_utf8(xml).len() <= usize::MAX,
    ensures
        outcome_fits(encode_utf8(xml), base, document::document_of(xml, base)),
{
    let b = encode_utf8(xml);
    let skipped = 3 * document::leading_marks(xml);
    document::lemma_marks(xml);
    text::lemma_text_bytes(xml);
    is_char_boundary_start_end_of_seq(b);
    lemma_unmarked(document::after_marks(xml), base + skipped);
    lemma_outcome_fits_whole(
        b,
        base,
        skipped,
        b.len() as int,
        document::document_of(xml, base),
    );
}

/// What is read of a text without a mark fits.
pub proof fn lemma_unmarked(xml: Seq<char>, base: int)
    requires
        xml::is_sound(xml),
        xml.len() > 0 ==> xml[0] != '\u{feff}',
        0 <= base,
        base + encode_utf8(xml).len() <= usize::MAX,
    ensures
        match tree::tree_of(xml, base) {
            Ok(root) => outcome_fits(encode_utf8(xml), base, document::interpreted(root)),
            Err(error) => error_fits(encode_utf8(xml), base, error),
        },
{
    let b = encode_utf8(xml);
    let tokens = xml::tokens_from(xml::lexed(xml), 0);
    lemma_tokens(xml, 0);
    lemma_assembled(b, tokens, 0, base, Seq::empty(), None);
    if let Ok(root) = tree::tree_of(xml, base) {
        lemma_interpreted(b, base, root);
    }
}

/// What fits into a part of a text fits into the text.
proof fn lemma_fits_whole(b: Seq<u8>, base: int, from: int, to: int, span: XmpSourceSpan)
    requires
        valid_utf8(b),
        0 <= from <= to <= b.len(),
        is_char_boundary(b, from),
        is_char_boundary(b, to),
        fits(b.subrange(from, to), base + from, span),
    ensures
        fits(b, base, span),
{
    let part = b.subrange(from, to);
    text::lemma_boundary_of_part(b, from, to, span.start - base - from);
    text::lemma_boundary_of_part(b, from, to, span.end - base - from);
    assert(part[span.start - base - from] == b[span.start - base]);
    assert(part[span.end - base - from - 1] == b[span.end - base - 1]);
}

/// A document whose spans fit into a part of a text has spans that fit into the text.
pub proof fn lemma_outcome_fits_whole(
    b: Seq<u8>,
    base: int,
    from: int,
    to: int,
    r: Result<DocumentView, ErrorView>,
)
    requires
        valid_utf8(b),
        0 <= from <= to <= b.len(),
        is_char_boundary(b, from),
        is_char_boundary(b, to),
        outcome_fits(b.subrange(from, to), base + from, r),
    ensures
        outcome_fits(b, base, r),
{
    let inner = b.subrange(from, to);
    let place = base + from;
    assert forall|span: XmpSourceSpan| fits(inner, place, span) implies #[trigger] fits(
        b,
        base,
        span,
    ) by {
        lemma_fits_whole(b, base, from, to, span);
    }
    if let Ok(d) = r {
        assert forall|i: int| 0 <= i < d.properties.len() implies fits(
            b,
            base,
            (#[trigger] d.properties[i]).span,
        ) by {
            assert(fits(inner, place, d.properties[i].span));
        }
        assert forall|i: int| 0 <= i < d.nodes.len() implies fits(
            b,
            base,
            (#[trigger] d.nodes[i]).span,
        ) by {
            assert(fits(inner, place, d.nodes[i].span));
        }
        assert forall|i: int| 0 <= i < d.namespaces.len() implies fits(
            b,
            base,
            (#[trigger] d.namespaces[i]).span,
        ) by {
            assert(fits(inner, place, d.namespaces[i].span));
        }
        assert forall|i: int| 0 <= i < d.descriptions.len() implies fits(
            b,
            base,
            (#[trigger] d.descriptions[i]).span,
        ) by {
            assert(fits(inner, place, d.descriptions[i].span));
        }
    }
}

} // verus!
