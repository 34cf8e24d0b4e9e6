//! Where a text stands does not matter for the graph that is read from it.

use vstd::prelude::*;
use vstd::string::*;
use vstd::utf8::*;

use crate::document;
use crate::document::{LocationView, Reading, SeenView};
use crate::error::ErrorView;
use crate::model::PropertyView;
use crate::namespace::RDF_NAMESPACE;
use crate::packet;
use crate::packet::XmpSourceSpan;
use crate::reader;
use crate::spans;
use crate::text;
use crate::tree;
use crate::tree::{AttrView, BindingView, ElementView};
use crate::xml;
use crate::xml::{KindView, TokenView};

verus! {

/// A span further on by some bytes.
pub open spec fn moved(span: XmpSourceSpan, by: int) -> XmpSourceSpan {
    packet::span(span.start + by, span.end + by)
}

/// An error with its places further on by some bytes.
pub open spec fn moved_error(error: ErrorView, by: int) -> ErrorView {
    match error {
        ErrorView::DuplicateProperty { namespace, name, first, duplicate } => {
            ErrorView::DuplicateProperty {
                namespace,
                name,
                first: moved(first, by),
                duplicate: moved(duplicate, by),
            }
        },
        _ => error,
    }
}

/// A graph, or the error in its place with its places further on by some bytes.
pub open spec fn moved_graph(
    graph: Result<Seq<PropertyView>, ErrorView>,
    by: int,
) -> Result<Seq<PropertyView>, ErrorView> {
    match graph {
        Ok(meta) => Ok(meta),
        Err(error) => Err(moved_error(error, by)),
    }
}

// ---------------------------------------------------------------------------------------------
// Trees
// ---------------------------------------------------------------------------------------------

/// Bindings further on by some bytes.
spec fn moved_bindings(s: Seq<BindingView>, by: int) -> Seq<BindingView> {
    s.map_values(|b: BindingView| BindingView { span: moved(b.span, by), ..b })
}

/// An element further on by some bytes.
spec fn moved_element(e: ElementView, by: int) -> ElementView
    decreases e,
{
    ElementView {
        span: moved(e.span, by),
        tag: moved(e.tag, by),
        bindings: moved_bindings(e.bindings, by),
        children: moved_elements(e.children, by),
        ..e
    }
}

/// Elements further on by some bytes.
spec fn moved_elements(s: Seq<ElementView>, by: int) -> Seq<ElementView>
    decreases s,
{
    if s.len() == 0 {
        Seq::empty()
    } else {
        moved_elements(s.drop_last(), by).push(moved_element(s.last(), by))
    }
}

/// A tree further on by some bytes, or the error in its place.
spec fn moved_tree(tree: Result<ElementView, ErrorView>, by: int) -> Result<
    ElementView,
    ErrorView,
> {
    match tree {
        Ok(e) => Ok(moved_element(e, by)),
        Err(error) => Err(error),
    }
}

/// An optional element further on by some bytes.
spec fn moved_option(e: Option<ElementView>, by: int) -> Option<ElementView> {
    match e {
        Some(e) => Some(moved_element(e, by)),
        None => None,
    }
}

proof fn lemma_moved_elements(s: Seq<ElementView>, by: int)
    ensures
        moved_elements(s, by).len() == s.len(),
        forall|i: int|
            0 <= i < s.len() ==> #[trigger] moved_elements(s, by)[i] == moved_element(s[i], by),
    decreases s.len(),
{
    if s.len() > 0 {
        lemma_moved_elements(s.drop_last(), by);
        assert forall|i: int| 0 <= i < s.len() implies #[trigger] moved_elements(s, by)[i]
            == moved_element(s[i], by) by {
            if i < s.len() - 1 {
                assert(moved_elements(s.drop_last(), by)[i] == moved_element(
                    s.drop_last()[i],
                    by,
                ));
            }
        }
    }
}

proof fn lemma_moved_push(s: Seq<ElementView>, e: ElementView, by: int)
    ensures
        moved_elements(s.push(e), by) == moved_elements(s, by).push(moved_element(e, by)),
{
    assert(s.push(e).drop_last() =~= s);
}

proof fn lemma_moved_drop(s: Seq<ElementView>, by: int)
    requires
        s.len() > 0,
    ensures
        moved_elements(s, by).len() > 0,
        moved_elements(s, by).drop_last() == moved_elements(s.drop_last(), by),
        moved_elements(s, by).last() == moved_element(s.last(), by),
{
    assert(moved_elements(s, by).drop_last() =~= moved_elements(s.drop_last(), by));
}

/// The attributes of a start tag do not depend on its place.
proof fn lemma_sorted(
    attributes: Seq<Result<xml::TagAttributeView, Seq<char>>>,
    tag: XmpSourceSpan,
    by: int,
)
    ensures
        tree::sorted_attributes(attributes, moved(tag, by)) == (match tree::sorted_attributes(
            attributes,
            tag,
        ) {
            Ok((attrs, bindings)) => Ok::<(Seq<AttrView>, Seq<BindingView>), ErrorView>(
                (attrs, moved_bindings(bindings, by)),
            ),
            Err(error) => Err(error),
        }),
    decreases attributes.len(),
{
    if attributes.len() == 0 {
        assert(moved_bindings(Seq::empty(), by) =~= Seq::<BindingView>::empty());
    } else {
        lemma_sorted(attributes.drop_last(), tag, by);
        if let Ok((attrs, bindings)) = tree::sorted_attributes(attributes.drop_last(), tag) {
            if let Ok(a) = attributes.last() {
                let binding = BindingView {
                    prefix: if a.key == "xmlns"@ {
                        None
                    } else {
                        Some(a.key.skip("xmlns:"@.len() as int))
                    },
                    namespace: a.value,
                    span: tag,
                };
                assert(moved_bindings(bindings.push(binding), by) =~= moved_bindings(
                    bindings,
                    by,
                ).push(BindingView { span: moved(tag, by), ..binding }));
            }
        }
    }
}

/// The tree of some tokens is the same wherever they stand, but for its places.
proof fn lemma_assembled(
    tokens: Seq<TokenView>,
    i: int,
    base: int,
    open: Seq<ElementView>,
    root: Option<ElementView>,
)
    requires
        xml::are_within(tokens, (usize::MAX - base) as nat),
        0 <= base <= usize::MAX,
        0 <= i,
    ensures
        tree::assembled(
            tokens,
            i,
            base,
            moved_elements(open, base),
            moved_option(root, base),
        ) == moved_tree(tree::assembled(tokens, i, 0, open, root), base),
    decreases tokens.len() - i,
{
    if i < tokens.len() {
        assert(tokens[i].start <= tokens[i].end <= usize::MAX - base);
        let end = tokens[i].end as int;
        if open.len() > 0 {
            lemma_moved_drop(open, base);
        } else {
            assert(moved_elements(open, base) =~= Seq::<ElementView>::empty());
        }
        match tokens[i].kind {
            KindView::Malformed(_) => {},
            KindView::Other => {
                lemma_assembled(tokens, i + 1, base, open, root);
            },
            KindView::Start(tag) => {
                let place = packet::span(tokens[i].start as int, end);
                assert(moved(place, base) == packet::span(base + tokens[i].start, base + end));
                lemma_sorted(tag.attributes, place, base);
                if let Ok(e) = tree::started(tag, place) {
                    let there = tree::started(tag, moved(place, base))->Ok_0;
                    assert(moved_elements(e.children, base) =~= Seq::<ElementView>::empty());
                    assert(there.children =~= Seq::<ElementView>::empty());
                    assert(there == moved_element(e, base));
                    lemma_moved_push(open, e, base);
                    lemma_assembled(tokens, i + 1, base, open.push(e), root);
                }
            },
            KindView::Text(text) => {
                if open.len() == 0 {
                    lemma_assembled(tokens, i + 1, base, open, root);
                } else {
                    let last = tree::with_text(open.last(), text);
                    assert(moved_element(last, base) == tree::with_text(
                        moved_element(open.last(), base),
                        text,
                    ));
                    lemma_moved_push(open.drop_last(), last, base);
                    lemma_assembled(tokens, i + 1, base, open.drop_last().push(last), root);
                }
            },
            KindView::End => {
                if open.len() > 0 {
                    let done = tree::closed(open.last(), end);
                    assert(moved_element(done, base) == tree::closed(
                        moved_element(open.last(), base),
                        base + end,
                    ));
                    if open.len() == 1 {
                        if root is None {
                            let none = Seq::<ElementView>::empty();
                            assert(moved_elements(none, base) =~= none);
                            lemma_assembled(tokens, i + 1, base, none, Some(done));
                        }
                    } else {
                        let outer = open.drop_last();
                        lemma_moved_drop(outer, base);
                        let parent = tree::with_child(outer.last(), done);
                        lemma_moved_push(outer.last().children, done, base);
                        assert(moved_element(parent, base) == tree::with_child(
                            moved_element(outer.last(), base),
                            moved_element(done, base),
                        ));
                        lemma_moved_push(outer.drop_last(), parent, base);
                        lemma_assembled(
                            tokens,
                            i + 1,
                            base,
                            outer.drop_last().push(parent),
                            root,
                        );
                    }
                }
            },
        }
    }
}

/// The tokens of a text lie within it.
proof fn lemma_tokens_within(xml: Seq<char>, i: int)
    requires
        xml::is_sound(xml),
        0 <= i < xml::lexed(xml).len(),
    ensures
        xml::are_within(xml::tokens_from(xml::lexed(xml), i), encode_utf8(xml).len()),
    decreases xml::lexed(xml).len() - i,
{
    let trace = xml::lexed(xml);
    if i + 1 < trace.len() {
        assert(xml::steps_at(trace, i));
        assert(trace[i].position <= encode_utf8(xml).len());
        assert(trace[i + 1].position <= encode_utf8(xml).len());
        lemma_tokens_within(xml, i + 1);
        let tokens = xml::tokens_from(trace, i);
        let rest = xml::tokens_from(trace, i + 1);
        assert forall|k: int| 0 <= k < tokens.len() implies (#[trigger] tokens[k]).start
            <= tokens[k].end <= encode_utf8(xml).len() by {
            if k > 0 {
                assert(tokens[k] == rest[k - 1]);
            }
        }
    }
}

/// The shape of an element does not depend on its place.
proof fn lemma_shape(e: ElementView, by: int)
    ensures
        reader::shape(moved_element(e, by)) == reader::shape(e),
    decreases e,
{
    lemma_shapes(e.children, by);
}

proof fn lemma_shapes(s: Seq<ElementView>, by: int)
    ensures
        reader::shapes(moved_elements(s, by)) == reader::shapes(s),
    decreases s,
{
    if s.len() > 0 {
        lemma_moved_drop(s, by);
        lemma_shapes(s.drop_last(), by);
        lemma_shape(s.last(), by);
    }
}

// ---------------------------------------------------------------------------------------------
// Documents
// ---------------------------------------------------------------------------------------------

/// Declared names further on by some bytes.
spec fn moved_seen(s: Seq<SeenView>, by: int) -> Seq<SeenView> {
    s.map_values(|n: SeenView| SeenView { span: moved(n.span, by), ..n })
}

/// Whether two readings differ only in their places and in what is recorded beside the graph.
spec fn reads_alike(
    there: Result<Reading, ErrorView>,
    here: Result<Reading, ErrorView>,
    by: int,
) -> bool {
    match (there, here) {
        (Ok(a), Ok(b)) => a.meta == b.meta && a.seen == moved_seen(b.seen, by),
        (Err(a), Err(b)) => a == moved_error(b, by),
        _ => false,
    }
}

proof fn lemma_seen_from(
    seen: Seq<SeenView>,
    namespace: Seq<char>,
    name: Seq<char>,
    from: int,
    by: int,
)
    ensures
        document::seen_from(moved_seen(seen, by), namespace, name, from) == (
        match document::seen_from(seen, namespace, name, from) {
            Some(span) => Some(moved(span, by)),
            None => None,
        }),
    decreases seen.len() - from,
{
    if 0 <= from < seen.len() {
        lemma_seen_from(seen, namespace, name, from + 1, by);
    }
}

proof fn lemma_noted(
    there: Reading,
    here: Reading,
    p: PropertyView,
    location_there: LocationView,
    location_here: LocationView,
    span: XmpSourceSpan,
    by: int,
)
    requires
        reads_alike(Ok(there), Ok(here), by),
    ensures
        reads_alike(
            document::noted(there, p, location_there, moved(span, by)),
            document::noted(here, p, location_here, span),
            by,
        ),
{
    lemma_seen_from(here.seen, p.namespace, p.name, 0, by);
    let one = SeenView { namespace: p.namespace, name: p.name, span };
    assert(moved_seen(here.seen.push(one), by) =~= moved_seen(here.seen, by).push(
        SeenView { span: moved(span, by), ..one },
    ));
}

proof fn lemma_after_attributes(there: Reading, here: Reading, e: ElementView, i: int, by: int)
    requires
        reads_alike(Ok(there), Ok(here), by),
    ensures
        reads_alike(
            document::after_attributes(there, moved_element(e, by), i),
            document::after_attributes(here, e, i),
            by,
        ),
    decreases e.attrs.len() - i,
{
    let f = moved_element(e, by);
    if 0 <= i < e.attrs.len() {
        match reader::data_property(document::shape_attr(e.attrs[i])) {
            None => {
                lemma_after_attributes(there, here, e, i + 1, by);
            },
            Some(p) => {
                let at_there = document::attribute_location(f, f.attrs[i], p);
                let at_here = document::attribute_location(e, e.attrs[i], p);
                lemma_noted(there, here, p, at_there, at_here, e.span, by);
                if let Ok(next) = document::noted(here, p, at_here, e.span) {
                    let next_there = document::noted(there, p, at_there, f.span)->Ok_0;
                    lemma_after_attributes(next_there, next, e, i + 1, by);
                }
            },
        }
    }
}

/// Reading a value never ends in an error with places.
proof fn lemma_after_children(there: Reading, here: Reading, e: ElementView, i: int, by: int)
    requires
        reads_alike(Ok(there), Ok(here), by),
    ensures
        reads_alike(
            document::after_children(there, moved_element(e, by), i),
            document::after_children(here, e, i),
            by,
        ),
    decreases e.children.len() - i,
{
    let f = moved_element(e, by);
    lemma_moved_elements(e.children, by);
    if 0 <= i < e.children.len() {
        let child = e.children[i];
        assert(f.children[i] == moved_element(child, by));
        lemma_shape(child, by);
        spans::lemma_property_errors(reader::shape(child));
        if let Ok(p) = reader::property_of(reader::shape(child)) {
            let at_here = LocationView {
                namespace: p.namespace,
                name: p.name,
                prefix: child.prefix,
                form: document::XmpPropertyForm::Element,
                span: child.span,
            };
            let at_there = LocationView { span: moved(child.span, by), ..at_here };
            lemma_noted(there, here, p, at_there, at_here, child.span, by);
            if let Ok(next) = document::noted(here, p, at_here, child.span) {
                let next_there = document::noted(
                    there,
                    p,
                    at_there,
                    moved(child.span, by),
                )->Ok_0;
                lemma_after_children(next_there, next, e, i + 1, by);
            }
        }
    }
}

proof fn lemma_after_descriptions(
    there: Reading,
    here: Reading,
    rdf: ElementView,
    i: int,
    by: int,
)
    requires
        reads_alike(Ok(there), Ok(here), by),
    ensures
        reads_alike(
            document::after_descriptions(there, moved_element(rdf, by), i),
            document::after_descriptions(here, rdf, i),
            by,
        ),
    decreases rdf.children.len() - i,
{
    let f = moved_element(rdf, by);
    lemma_moved_elements(rdf.children, by);
    if 0 <= i < rdf.children.len() {
        let e = rdf.children[i];
        let g = moved_element(e, by);
        assert(f.children[i] == g);
        if document::is_named(e, RDF_NAMESPACE@, "Description"@) {
            let started_here = Reading {
                descriptions: here.descriptions.push(document::description_of(e)),
                ..here
            };
            let started_there = Reading {
                descriptions: there.descriptions.push(document::description_of(g)),
                ..there
            };
            lemma_after_attributes(started_there, started_here, e, 0, by);
            if let Ok(next) = document::after_attributes(started_here, e, 0) {
                let next_there = document::after_attributes(started_there, g, 0)->Ok_0;
                lemma_after_children(next_there, next, e, 0, by);
            }
            if let Ok(next) = document::after_description(here, e) {
                let next_there = document::after_description(there, g)->Ok_0;
                lemma_after_descriptions(next_there, next, rdf, i + 1, by);
            }
        }
    }
}

proof fn lemma_rdf_from(s: Seq<ElementView>, from: int, by: int)
    ensures
        document::rdf_from(moved_elements(s, by), from) == document::rdf_from(s, from),
        document::rdf_from(s, from) matches Some(i) ==> 0 <= i < s.len(),
    decreases s.len() - from,
{
    lemma_moved_elements(s, by);
    if 0 <= from < s.len() {
        assert(moved_elements(s, by)[from] == moved_element(s[from], by));
        lemma_rdf_from(s, from + 1, by);
    }
}

/// The graph of a tree is the same wherever the tree stands.
proof fn lemma_interpreted(root: ElementView, by: int)
    ensures
        document::graph_of(document::interpreted(moved_element(root, by))) == moved_graph(
            document::graph_of(document::interpreted(root)),
            by,
        ),
{
    lemma_moved_elements(root.children, by);
    lemma_rdf_from(root.children, 0, by);
    let nothing = document::nothing_read();
    assert(moved_seen(nothing.seen, by) =~= nothing.seen);
    if let Some(i) = document::rdf_from(root.children, 0) {
        assert(moved_elements(root.children, by)[i] == moved_element(root.children[i], by));
    }
    if let Some(rdf) = document::rdf_of(root) {
        assert(document::rdf_of(moved_element(root, by)) == Some(moved_element(rdf, by)));
        lemma_after_descriptions(nothing, nothing, rdf, 0, by);
    }
}

/// The graph of a text is the same wherever the text stands, and so is the error in its place but
/// for its places.
pub proof fn law_graph_does_not_depend_on_the_place(xml: Seq<char>, base: int)
    requires
        document::is_sound(xml),
        0 <= base,
        base + encode_utf8(xml).len() <= usize::MAX,
    ensures
        document::graph_of(document::document_of(xml, base)) == moved_graph(
            document::graph_of(document::document_of(xml, 0)),
            base,
        ),
{
    let skipped = 3 * document::leading_marks(xml);
    let part = document::after_marks(xml);
    document::lemma_marks(xml);
    lemma_part_graph(part, skipped);
    lemma_part_graph(part, base + skipped);
    spans::lemma_unmarked(part, 0);
    assert(document::graph_of(document::document_of(xml, 0)) == part_graph(part, skipped));
    assert(document::graph_of(document::document_of(xml, base)) == part_graph(
        part,
        base + skipped,
    ));
}

/// The graph of what the lexer reads, placed at `base`.
spec fn part_graph(xml: Seq<char>, base: int) -> Result<Seq<PropertyView>, ErrorView> {
    match tree::tree_of(xml, base) {
        Ok(root) => document::graph_of(document::interpreted(root)),
        Err(error) => Err(error),
    }
}

/// The graph of what the lexer reads is the same wherever that stands.
proof fn lemma_part_graph(xml: Seq<char>, base: int)
    requires
        xml::is_sound(xml),
        0 <= base,
        base + encode_utf8(xml).len() <= usize::MAX,
    ensures
        part_graph(xml, base) == moved_graph(part_graph(xml, 0), base),
{
    let tokens = xml::tokens_from(xml::lexed(xml), 0);
    let none = Seq::<ElementView>::empty();
    lemma_tokens_within(xml, 0);
    assert(xml::are_within(tokens, (usize::MAX - base) as nat)) by {
        assert forall|k: int| 0 <= k < tokens.len() implies (#[trigger] tokens[k]).start
            <= tokens[k].end <= usize::MAX - base by {
            assert(tokens[k].end <= encode_utf8(xml).len());
        }
    }
    assert(moved_elements(none, base) =~= none);
    lemma_assembled(tokens, 0, base, none, None);
    match tree::tree_of(xml, 0) {
        Ok(root) => {
            lemma_interpreted(root, base);
        },
        Err(error) => {
            lemma_tree_errors(tokens, 0, none, None);
        },
    }
}

/// What is wrong with a tree has no place.
proof fn lemma_tree_errors(
    tokens: Seq<TokenView>,
    i: int,
    open: Seq<ElementView>,
    root: Option<ElementView>,
)
    ensures
        tree::assembled(tokens, i, 0, open, root) matches Err(error) ==> !(
        error is DuplicateProperty),
    decreases tokens.len() - i,
{
    if 0 <= i < tokens.len() {
        let end = tokens[i].end as int;
        match tokens[i].kind {
            KindView::Malformed(_) => {},
            KindView::Other => {
                lemma_tree_errors(tokens, i + 1, open, root);
            },
            KindView::Start(tag) => {
                let place = packet::span(tokens[i].start as int, end);
                spans::lemma_sorted(tag.attributes, place);
                if let Ok(e) = tree::started(tag, place) {
                    lemma_tree_errors(tokens, i + 1, open.push(e), root);
                }
            },
            KindView::Text(text) => {
                if open.len() == 0 {
                    lemma_tree_errors(tokens, i + 1, open, root);
                } else {
                    lemma_tree_errors(
                        tokens,
                        i + 1,
                        open.drop_last().push(tree::with_text(open.last(), text)),
                        root,
                    );
                }
            },
            KindView::End => {
                if open.len() == 1 && root is None {
                    lemma_tree_errors(
                        tokens,
                        i + 1,
                        Seq::empty(),
                        Some(tree::closed(open.last(), end)),
                    );
                } else if open.len() > 1 {
                    let outer = open.drop_last();
                    lemma_tree_errors(
                        tokens,
                        i + 1,
                        outer.drop_last().push(
                            tree::with_child(outer.last(), tree::closed(open.last(), end)),
                        ),
                        root,
                    );
                }
            },
        }
    }
}

/// Reading a packet is scanning it and then parsing its body: the graph is the same, and so is the
/// error but for its places, which count from the front of the packet in the one case and from the
/// front of the body in the other.
pub proof fn law_reading_is_scanning_and_parsing(bytes: Seq<u8>)
    requires
        packet::scanned(bytes) matches Ok(d) ==> d.bytes().len() <= usize::MAX
            && document::is_sound(d.packet.body),
    ensures
        document::graph_in(bytes) == (match packet::scanned(bytes) {
            Ok(d) => moved_graph(
                document::graph_of(document::document_of(d.packet.body, 0)),
                d.envelope.content.start as int,
            ),
            Err(error) => Err(error),
        }),
{
    if let Ok(d) = packet::scanned(bytes) {
        packet::law_scanned_spans_slice_the_text(bytes);
        text::lemma_text_bytes(d.packet.body);
        law_graph_does_not_depend_on_the_place(
            d.packet.body,
            d.envelope.content.start as int,
        );
    }
}

} // verus!
