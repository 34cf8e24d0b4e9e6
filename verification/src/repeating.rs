//! What is reported of a document that declares a name twice or holds what is no description, and
//! what is said of the subjects of descriptions.

use vstd::prelude::*;

use crate::declaring;
use crate::document;
use crate::document::{LocationView, Reading};
use crate::error::ErrorView;
use crate::forms;
use crate::model::PropertyView;
use crate::namespace::{RDF_NAMESPACE, XMPMETA_NAMESPACE};
use crate::packet::XmpSourceSpan;
use crate::reader;
use crate::tree::{AttrView, ElementView};

verus! {

// ---------------------------------------------------------------------------------------------
// Names that are declared twice
// ---------------------------------------------------------------------------------------------

/// Whether an error says that one of some properties has the name of an earlier one, and where the
/// two are declared. Before the later of them no name is repeated.
pub open spec fn is_repetition(
    error: ErrorView,
    s: Seq<PropertyView>,
    spans: Seq<XmpSourceSpan>,
) -> bool {
    exists|i: int, j: int|
        {
            &&& 0 <= i < j < s.len()
            &&& (#[trigger] s[i]).namespace == (#[trigger] s[j]).namespace
            &&& s[i].name == s[j].name
            &&& declaring::names_once(s.take(j))
            &&& error == ErrorView::DuplicateProperty {
                namespace: s[j].namespace,
                name: s[j].name,
                first: spans[i],
                duplicate: spans[j],
            }
        }
}

/// The spans of the declarations of an element: its own for its data attributes, then those of its
/// children.
pub open spec fn declaration_spans(e: ElementView) -> Seq<XmpSourceSpan> {
    Seq::new(reader::data_properties(reader::shape(e).attrs).len(), |k: int| e.span) + Seq::new(
        e.children.len(),
        |j: int| e.children[j].span,
    )
}

/// The spans of the declarations of some elements.
pub open spec fn all_spans(s: Seq<ElementView>) -> Seq<XmpSourceSpan>
    decreases s.len(),
{
    if s.len() == 0 {
        Seq::empty()
    } else {
        declaration_spans(s[0]) + all_spans(s.drop_first())
    }
}

/// Whether the properties that have been read have been read at the given spans.
spec fn is_tracked(r: Reading, spans: Seq<XmpSourceSpan>) -> bool {
    &&& declaring::is_aligned(r)
    &&& spans.len() == r.seen.len()
    &&& forall|i: int| 0 <= i < spans.len() ==> (#[trigger] r.seen[i]).span == spans[i]
}

proof fn lemma_repetition_stays(
    error: ErrorView,
    a: Seq<PropertyView>,
    at: Seq<XmpSourceSpan>,
    b: Seq<PropertyView>,
    bt: Seq<XmpSourceSpan>,
)
    requires
        is_repetition(error, a, at),
        at.len() == a.len(),
    ensures
        is_repetition(error, a + b, at + bt),
{
    let (i, j) = choose|i: int, j: int|
        {
            &&& 0 <= i < j < a.len()
            &&& (#[trigger] a[i]).namespace == (#[trigger] a[j]).namespace
            &&& a[i].name == a[j].name
            &&& declaring::names_once(a.take(j))
            &&& error == ErrorView::DuplicateProperty {
                namespace: a[j].namespace,
                name: a[j].name,
                first: at[i],
                duplicate: at[j],
            }
        };
    assert((a + b)[i] == a[i] && (a + b)[j] == a[j]);
    assert((a + b).take(j) =~= a.take(j));
}

proof fn lemma_seen(r: Reading, spans: Seq<XmpSourceSpan>, p: PropertyView, from: int)
    requires
        is_tracked(r, spans),
        0 <= from,
    ensures
        match document::seen_from(r.seen, p.namespace, p.name, from) {
            Some(first) => exists|i: int|
                from <= i < r.meta.len() && (#[trigger] r.meta[i]).namespace == p.namespace
                    && r.meta[i].name == p.name && spans[i] == first,
            None => true,
        },
    decreases r.seen.len() - from,
{
    if from < r.seen.len() {
        assert(r.seen[from].namespace == r.meta[from].namespace);
        lemma_seen(r, spans, p, from + 1);
    }
}

proof fn lemma_noted(
    r: Reading,
    spans: Seq<XmpSourceSpan>,
    p: PropertyView,
    location: LocationView,
    span: XmpSourceSpan,
)
    requires
        is_tracked(r, spans),
    ensures
        match document::noted(r, p, location, span) {
            Ok(next) => is_tracked(next, spans.push(span)),
            Err(error) => is_repetition(error, r.meta.push(p), spans.push(span)),
        },
{
    declaring::lemma_noted(r, p, location, span);
    lemma_seen(r, spans, p, 0);
    if let Some(first) = document::seen_from(r.seen, p.namespace, p.name, 0) {
        let i = choose|i: int|
            0 <= i < r.meta.len() && (#[trigger] r.meta[i]).namespace == p.namespace
                && r.meta[i].name == p.name && spans[i] == first;
        let more = r.meta.push(p);
        let j = r.meta.len() as int;
        assert(more[i] == r.meta[i] && more[j] == p);
        assert(more.take(j) =~= r.meta);
    }
}

proof fn lemma_attributes(r: Reading, spans: Seq<XmpSourceSpan>, e: ElementView, i: int)
    requires
        is_tracked(r, spans),
        0 <= i <= e.attrs.len(),
    ensures
        ({
            let data = reader::data_properties(reader::shape(e).attrs.skip(i));
            let here = Seq::new(data.len(), |k: int| e.span);
            match document::after_attributes(r, e, i) {
                Ok(next) => is_tracked(next, spans + here),
                Err(error) => is_repetition(error, r.meta + data, spans + here),
            }
        }),
    decreases e.attrs.len() - i,
{
    let attrs = reader::shape(e).attrs;
    let data = reader::data_properties(attrs.skip(i));
    let here = Seq::new(data.len(), |k: int| e.span);
    assert(attrs.len() == e.attrs.len());
    if i < e.attrs.len() {
        let x = attrs[i];
        assert(x == document::shape_attr(e.attrs[i]));
        let rest = attrs.skip(i + 1);
        let after = reader::data_properties(rest);
        let later = Seq::new(after.len(), |k: int| e.span);
        assert(attrs.skip(i) =~= seq![x] + rest);
        forms::law_data_attributes_are_properties(seq![x], rest, x);
        match reader::data_property(x) {
            None => {
                assert(data =~= after);
                assert(here =~= later);
                lemma_attributes(r, spans, e, i + 1);
            },
            Some(p) => {
                let location = document::attribute_location(e, e.attrs[i], p);
                assert(data == seq![p] + after);
                assert(r.meta + data =~= r.meta.push(p) + after);
                assert(spans + here =~= spans.push(e.span) + later);
                lemma_noted(r, spans, p, location, e.span);
                declaring::lemma_noted(r, p, location, e.span);
                match document::noted(r, p, location, e.span) {
                    Ok(next) => {
                        lemma_attributes(next, spans.push(e.span), e, i + 1);
                    },
                    Err(error) => {
                        lemma_repetition_stays(
                            error,
                            r.meta.push(p),
                            spans.push(e.span),
                            after,
                            later,
                        );
                    },
                }
            },
        }
    } else {
        assert(attrs.skip(i) =~= Seq::empty());
        assert(data =~= Seq::empty());
        assert(spans + here =~= spans);
    }
}

proof fn lemma_children(r: Reading, spans: Seq<XmpSourceSpan>, e: ElementView, i: int)
    requires
        is_tracked(r, spans),
        0 <= i <= e.children.len(),
        reader::properties_of(reader::shape(e).children.skip(i)) is Ok,
    ensures
        ({
            let read = reader::properties_of(reader::shape(e).children.skip(i))->Ok_0;
            let here = Seq::new((e.children.len() - i) as nat, |j: int| e.children[i + j].span);
            &&& read.len() == here.len()
            &&& match document::after_children(r, e, i) {
                Ok(next) => is_tracked(next, spans + here),
                Err(error) => is_repetition(error, r.meta + read, spans + here),
            }
        }),
    decreases e.children.len() - i,
{
    let shapes = reader::shape(e).children;
    let rest = shapes.skip(i);
    let here = Seq::new((e.children.len() - i) as nat, |j: int| e.children[i + j].span);
    reader::lemma_shapes(e.children);
    if i < e.children.len() {
        let child = e.children[i];
        assert(rest[0] == reader::shape(child));
        assert(rest.drop_first() =~= shapes.skip(i + 1));
        let p = reader::property_of(reader::shape(child))->Ok_0;
        let others = reader::properties_of(shapes.skip(i + 1))->Ok_0;
        let later = Seq::new(
            (e.children.len() - i - 1) as nat,
            |j: int| e.children[i + 1 + j].span,
        );
        let location = LocationView {
            namespace: p.namespace,
            name: p.name,
            ..declaring::element_place(child)
        };
        assert(r.meta.push(p) + others =~= r.meta + (seq![p] + others));
        assert(spans + here =~= spans.push(child.span) + later);
        lemma_noted(r, spans, p, location, child.span);
        declaring::lemma_noted(r, p, location, child.span);
        match document::noted(r, p, location, child.span) {
            Ok(next) => {
                lemma_children(next, spans.push(child.span), e, i + 1);
            },
            Err(error) => {
                lemma_children(r, spans, e, i + 1);
                lemma_repetition_stays(
                    error,
                    r.meta.push(p),
                    spans.push(child.span),
                    others,
                    later,
                );
            },
        }
    } else {
        assert(rest =~= Seq::empty());
        assert(reader::properties_of(rest) == Ok::<Seq<PropertyView>, ErrorView>(Seq::empty()));
        assert(spans + here =~= spans);
    }
}

proof fn lemma_description(r: Reading, spans: Seq<XmpSourceSpan>, e: ElementView)
    requires
        is_tracked(r, spans),
        reader::fields_of(reader::shape(e)) is Ok,
    ensures
        ({
            let fields = reader::fields_of(reader::shape(e))->Ok_0;
            &&& fields.len() == declaration_spans(e).len()
            &&& match document::after_description(r, e) {
                Ok(next) => is_tracked(next, spans + declaration_spans(e)),
                Err(error) => is_repetition(
                    error,
                    r.meta + fields,
                    spans + declaration_spans(e),
                ),
            }
        }),
{
    let started = Reading { descriptions: r.descriptions.push(document::description_of(e)), ..r };
    let shape = reader::shape(e);
    let data = reader::data_properties(shape.attrs);
    let here = Seq::new(data.len(), |k: int| e.span);
    let below = Seq::new((e.children.len() - 0) as nat, |j: int| e.children[0 + j].span);
    let others = reader::properties_of(shape.children)->Ok_0;
    assert(shape.attrs.skip(0) =~= shape.attrs);
    assert(shape.children.skip(0) =~= shape.children);
    assert(spans + here + below =~= spans + declaration_spans(e));
    assert(r.meta + data + others =~= r.meta + (data + others));
    lemma_attributes(started, spans, e, 0);
    declaring::lemma_attributes(started, e, 0);
    match document::after_attributes(started, e, 0) {
        Ok(next) => {
            lemma_children(next, spans + here, e, 0);
        },
        Err(error) => {
            lemma_children(r, spans, e, 0);
            lemma_repetition_stays(error, r.meta + data, spans + here, others, below);
        },
    }
}

/// The children of an element from an index on, where they can be read.
proof fn lemma_rest(rdf: ElementView, i: int)
    requires
        0 <= i < rdf.children.len(),
        declaring::are_readable(reader::shape(rdf).children.skip(i)),
    ensures
        ({
            let rest = reader::shape(rdf).children.skip(i);
            let e = rdf.children[i];
            &&& rest.len() > 0
            &&& rest[0] == reader::shape(e)
            &&& rest.drop_first() == reader::shape(rdf).children.skip(i + 1)
            &&& declaring::are_readable(rest.drop_first())
            &&& document::is_named(e, RDF_NAMESPACE@, "Description"@)
            &&& reader::fields_of(reader::shape(e)) is Ok
            &&& rdf.children.skip(i)[0] == e
            &&& rdf.children.skip(i).drop_first() == rdf.children.skip(i + 1)
        }),
{
    let shapes = reader::shape(rdf).children;
    let rest = shapes.skip(i);
    let behind = rest.drop_first();
    reader::lemma_shapes(rdf.children);
    assert(rest[0] == reader::shape(rdf.children[i]));
    assert(behind =~= shapes.skip(i + 1));
    assert(rdf.children.skip(i).drop_first() =~= rdf.children.skip(i + 1));
    assert forall|k: int| 0 <= k < behind.len() implies (#[trigger] behind[k]).ns == Some(
        RDF_NAMESPACE@,
    ) && behind[k].local == "Description"@ && reader::fields_of(behind[k]) is Ok by {
        assert(behind[k] == rest[k + 1]);
    }
}

proof fn lemma_descriptions(r: Reading, spans: Seq<XmpSourceSpan>, rdf: ElementView, i: int)
    requires
        is_tracked(r, spans),
        0 <= i <= rdf.children.len(),
        declaring::are_readable(reader::shape(rdf).children.skip(i)),
    ensures
        ({
            let rest = reader::shape(rdf).children.skip(i);
            let here = all_spans(rdf.children.skip(i));
            &&& declaring::declared(rest).len() == here.len()
            &&& match document::after_descriptions(r, rdf, i) {
                Ok(next) => is_tracked(next, spans + here),
                Err(error) => is_repetition(
                    error,
                    r.meta + declaring::declared(rest),
                    spans + here,
                ),
            }
        }),
    decreases rdf.children.len() - i,
{
    let rest = reader::shape(rdf).children.skip(i);
    let here = all_spans(rdf.children.skip(i));
    reader::lemma_shapes(rdf.children);
    if i < rdf.children.len() {
        let e = rdf.children[i];
        lemma_rest(rdf, i);
        let fields = reader::fields_of(rest[0])->Ok_0;
        let later = declaring::declared(rest.drop_first());
        let there = all_spans(rdf.children.skip(i + 1));
        assert(r.meta + fields + later =~= r.meta + (fields + later));
        assert(spans + declaration_spans(e) + there =~= spans + here);
        lemma_description(r, spans, e);
        declaring::lemma_description(r, e);
        match document::after_description(r, e) {
            Ok(next) => {
                lemma_descriptions(next, spans + declaration_spans(e), rdf, i + 1);
            },
            Err(error) => {
                lemma_descriptions(r, spans, rdf, i + 1);
                lemma_repetition_stays(
                    error,
                    r.meta + fields,
                    spans + declaration_spans(e),
                    later,
                    there,
                );
            },
        }
    } else {
        assert(rest =~= Seq::empty());
        assert(rdf.children.skip(i) =~= Seq::empty());
        assert(spans + here =~= spans);
    }
}

/// A document whose descriptions can all be read, but that declares a name twice, is refused. The
/// error names the property and the spans of the two declarations: of the first one and of the
/// first that repeats any.
pub proof fn law_repeated_names_are_reported(root: ElementView, rdf: ElementView)
    requires
        document::rdf_of(root) == Some(rdf),
        declaring::are_readable(reader::shape(rdf).children),
        !declaring::names_once(declaring::declared(reader::shape(rdf).children)),
    ensures
        match document::interpreted(root) {
            Ok(_) => false,
            Err(error) => is_repetition(
                error,
                declaring::declared(reader::shape(rdf).children),
                all_spans(rdf.children),
            ),
        },
{
    let nothing = document::nothing_read();
    let s = reader::shape(rdf).children;
    let none = Seq::<XmpSourceSpan>::empty();
    assert(s.skip(0) =~= s);
    assert(rdf.children.skip(0) =~= rdf.children);
    declaring::law_the_graph_is_what_is_declared(root);
    lemma_descriptions(nothing, none, rdf, 0);
    assert(nothing.meta + declaring::declared(s) =~= declaring::declared(s));
    assert(none + all_spans(rdf.children) =~= all_spans(rdf.children));
}

// ---------------------------------------------------------------------------------------------
// What is no description
// ---------------------------------------------------------------------------------------------

proof fn lemma_stops(r: Reading, rdf: ElementView, i: int, k: int)
    requires
        0 <= i <= k < rdf.children.len(),
        document::after_descriptions(r, rdf, i) is Err,
        !document::is_named(rdf.children[k], RDF_NAMESPACE@, "Description"@),
        forall|j: int|
            i <= j < k ==> document::is_named(
                #[trigger] rdf.children[j],
                RDF_NAMESPACE@,
                "Description"@,
            ) && reader::fields_of(reader::shape(rdf.children[j])) is Ok,
        declaring::is_aligned(r),
    ensures
        ({
            let error = document::after_descriptions(r, rdf, i)->Err_0;
            error is DuplicateProperty || error == ErrorView::Prohibited(
                "top-level <"@ + rdf.children[k].local + "> is not rdf:Description"@,
            )
        }),
    decreases k - i,
{
    if i < k {
        let e = rdf.children[i];
        assert(document::is_named(e, RDF_NAMESPACE@, "Description"@));
        let spans = Seq::new(r.seen.len(), |n: int| r.seen[n].span);
        lemma_description(r, spans, e);
        declaring::lemma_description(r, e);
        if let Ok(next) = document::after_description(r, e) {
            lemma_stops(next, rdf, i + 1, k);
        }
    }
}

proof fn lemma_refused(r: Reading, rdf: ElementView, i: int, k: int)
    requires
        0 <= i <= k < rdf.children.len(),
        !document::is_named(rdf.children[k], RDF_NAMESPACE@, "Description"@),
    ensures
        document::after_descriptions(r, rdf, i) is Err,
    decreases k - i,
{
    if i < k {
        if let Ok(next) = document::after_description(r, rdf.children[i]) {
            lemma_refused(next, rdf, i + 1, k);
        }
    }
}

/// A document with a child of `rdf:RDF` that is no `rdf:Description` is refused. Where the ones
/// before it can be read, the error names that child, unless a name is repeated before it.
pub proof fn law_only_descriptions_stand_in_the_graph(root: ElementView, rdf: ElementView, k: int)
    requires
        document::rdf_of(root) == Some(rdf),
        0 <= k < rdf.children.len(),
        !document::is_named(rdf.children[k], RDF_NAMESPACE@, "Description"@),
    ensures
        document::interpreted(root) is Err,
        (forall|j: int|
            0 <= j < k ==> document::is_named(
                #[trigger] rdf.children[j],
                RDF_NAMESPACE@,
                "Description"@,
            ) && reader::fields_of(reader::shape(rdf.children[j])) is Ok) ==> ({
            let error = document::interpreted(root)->Err_0;
            error is DuplicateProperty || error == ErrorView::Prohibited(
                "top-level <"@ + rdf.children[k].local + "> is not rdf:Description"@,
            )
        }),
{
    let nothing = document::nothing_read();
    lemma_refused(nothing, rdf, 0, k);
    if forall|j: int|
        0 <= j < k ==> document::is_named(
            #[trigger] rdf.children[j],
            RDF_NAMESPACE@,
            "Description"@,
        ) && reader::fields_of(reader::shape(rdf.children[j])) is Ok {
        lemma_stops(nothing, rdf, 0, k);
    }
}

// ---------------------------------------------------------------------------------------------
// Subjects and marks
// ---------------------------------------------------------------------------------------------

/// Whether an attribute is `rdf:about` or `rdf:ID`.
pub open spec fn names_subject(a: AttrView) -> bool {
    a.ns == Some(RDF_NAMESPACE@) && (a.local == "about"@ || a.local == "ID"@)
}

proof fn lemma_subject(attrs: Seq<AttrView>, from: int)
    requires
        0 <= from,
    ensures
        match document::subject_from(attrs, from) {
            Some(i) => {
                &&& from <= i < attrs.len()
                &&& names_subject(attrs[i])
                &&& forall|j: int| from <= j < i ==> !names_subject(#[trigger] attrs[j])
            },
            None => forall|j: int|
                from <= j < attrs.len() ==> !names_subject(#[trigger] attrs[j]),
        },
    decreases attrs.len() - from,
{
    if from < attrs.len() && !names_subject(attrs[from]) {
        lemma_subject(attrs, from + 1);
    }
}

/// The subject of a description is the value of its first `rdf:about` or `rdf:ID`, with the prefix
/// of that attribute, and it has none just where it has no such attribute. A document tells whether
/// it has an `x:xmpmeta` wrapper.
pub proof fn law_descriptions_have_their_subjects(root: ElementView, rdf: ElementView, k: int)
    requires
        document::rdf_of(root) == Some(rdf),
        0 <= k < rdf.children.len(),
    ensures
        document::interpreted(root) matches Ok(d) ==> ({
            let attrs = rdf.children[k].attrs;
            &&& match d.descriptions[k].subject {
                Some(subject) => exists|i: int|
                    {
                        &&& 0 <= i < attrs.len()
                        &&& names_subject(#[trigger] attrs[i])
                        &&& attrs[i].value == subject
                        &&& attrs[i].prefix == d.descriptions[k].subject_prefix
                        &&& forall|j: int| 0 <= j < i ==> !names_subject(#[trigger] attrs[j])
                    },
                None => d.descriptions[k].subject_prefix is None && forall|i: int|
                    0 <= i < attrs.len() ==> !names_subject(#[trigger] attrs[i]),
            }
            &&& d.root_is_xmpmeta <==> (root.ns == Some(XMPMETA_NAMESPACE@) && root.local
                == "xmpmeta"@)
        }),
{
    let nothing = document::nothing_read();
    let s = reader::shape(rdf).children;
    assert(s.skip(0) =~= s);
    declaring::lemma_descriptions(nothing, rdf, 0);
    lemma_subject(rdf.children[k].attrs, 0);
    if let Ok(d) = document::interpreted(root) {
        assert(d.descriptions[0 + k - 0] == document::description_of(rdf.children[k]));
        if let Some(i) = document::subject_from(rdf.children[k].attrs, 0) {
            assert(names_subject(rdf.children[k].attrs[i]));
        }
    }
}

/// Byte-order marks at the start of a text, and nothing else, are dropped before it is read.
pub proof fn law_leading_marks_are_dropped(marks: Seq<char>, xml: Seq<char>)
    requires
        forall|i: int| 0 <= i < marks.len() ==> #[trigger] marks[i] == '\u{feff}',
        xml.len() > 0 ==> xml[0] != '\u{feff}',
    ensures
        document::after_marks(marks + xml) == xml,
    decreases marks.len(),
{
    let whole = marks + xml;
    if marks.len() > 0 {
        let rest = marks.drop_first();
        assert forall|i: int| 0 <= i < rest.len() implies #[trigger] rest[i] == '\u{feff}' by {
            assert(rest[i] == marks[i + 1]);
        }
        law_leading_marks_are_dropped(rest, xml);
        assert(whole[0] == marks[0]);
        assert(whole.drop_first() =~= rest + xml);
        lemma_marks(rest + xml);
        assert(whole.skip(document::leading_marks(whole)) =~= (rest + xml).skip(
            document::leading_marks(rest + xml),
        ));
    } else {
        assert(whole =~= xml);
        assert(xml.skip(0) =~= xml);
    }
}

proof fn lemma_marks(xml: Seq<char>)
    ensures
        0 <= document::leading_marks(xml) <= xml.len(),
    decreases xml.len(),
{
    if xml.len() > 0 {
        lemma_marks(xml.drop_first());
    }
}

} // verus!
