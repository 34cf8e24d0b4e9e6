//! What a document declares, and that all of it and nothing else is in its graph and its layout.

use vstd::prelude::*;
use vstd::string::*;

use crate::document;
use crate::document::{LocationView, Reading, SeenView, XmpPropertyForm};
use crate::error::ErrorView;
use crate::forms;
use crate::model;
use crate::model::PropertyView;
use crate::namespace::{RDF_NAMESPACE, XMPMETA_NAMESPACE};
use crate::packet::XmpSourceSpan;
use crate::reader;
use crate::reader::Shape;
use crate::tree::{AttrView, BindingView, ElementView};

verus! {

// ---------------------------------------------------------------------------------------------
// The graph
// ---------------------------------------------------------------------------------------------

/// Whether no two of some properties have the same name.
pub open spec fn names_once(s: Seq<PropertyView>) -> bool {
    forall|i: int, j: int|
        0 <= i < j < s.len() ==> (#[trigger] s[i]).namespace != (#[trigger] s[j]).namespace
            || s[i].name != s[j].name
}

/// Whether all of some elements are `rdf:Description` elements whose fields can be read.
pub open spec fn are_readable(s: Seq<Shape>) -> bool {
    forall|i: int|
        0 <= i < s.len() ==> {
            &&& (#[trigger] s[i]).ns == Some(RDF_NAMESPACE@)
            &&& s[i].local == "Description"@
            &&& reader::fields_of(s[i]) is Ok
        }
}

/// The fields of some descriptions, one description after the other.
pub open spec fn declared(s: Seq<Shape>) -> Seq<PropertyView>
    decreases s.len(),
{
    if s.len() == 0 {
        Seq::empty()
    } else {
        reader::fields_of(s[0])->Ok_0 + declared(s.drop_first())
    }
}

/// Whether what has been read names the properties of its graph, and none twice.
pub open spec fn is_aligned(r: Reading) -> bool {
    &&& r.seen.len() == r.meta.len()
    &&& forall|i: int|
        0 <= i < r.seen.len() ==> (#[trigger] r.seen[i]).namespace == r.meta[i].namespace
            && r.seen[i].name == r.meta[i].name
    &&& names_once(r.meta)
}

proof fn lemma_seen_from(seen: Seq<SeenView>, namespace: Seq<char>, name: Seq<char>, from: int)
    requires
        0 <= from,
    ensures
        document::seen_from(seen, namespace, name, from) is Some <==> exists|i: int|
            from <= i < seen.len() && (#[trigger] seen[i]).namespace == namespace && seen[i].name
                == name,
    decreases seen.len() - from,
{
    if from < seen.len() && !(seen[from].namespace == namespace && seen[from].name == name) {
        lemma_seen_from(seen, namespace, name, from + 1);
    } else if from < seen.len() {
        assert(seen[from].namespace == namespace);
    }
}

pub proof fn lemma_noted(r: Reading, p: PropertyView, location: LocationView, span: XmpSourceSpan)
    requires
        is_aligned(r),
    ensures
        match document::noted(r, p, location, span) {
            Ok(next) => {
                &&& is_aligned(next)
                &&& next.meta == r.meta.push(p)
                &&& next.properties == r.properties.push(location)
                &&& next.descriptions == r.descriptions
            },
            Err(_) => !names_once(r.meta.push(p)),
        },
{
    lemma_seen_from(r.seen, p.namespace, p.name, 0);
    let more = r.meta.push(p);
    match document::noted(r, p, location, span) {
        Ok(next) => {
            model::lemma_position_from(r.meta, p.namespace, p.name, 0);
            if let Some(k) = model::position(r.meta, p.namespace, p.name) {
                assert(r.seen[k].namespace == p.namespace && r.seen[k].name == p.name);
            }
            assert(next.meta == more);
            assert forall|i: int, j: int| 0 <= i < j < more.len() implies (
            #[trigger] more[i]).namespace != (#[trigger] more[j]).namespace || more[i].name
                != more[j].name by {
                assert(r.meta[i] == more[i]);
                if j < r.meta.len() {
                    assert(r.meta[j] == more[j]);
                } else {
                    assert(r.seen[i].namespace == r.meta[i].namespace);
                }
            }
        },
        Err(_) => {
            let i = choose|i: int|
                0 <= i < r.seen.len() && (#[trigger] r.seen[i]).namespace == p.namespace
                    && r.seen[i].name == p.name;
            assert(more[i] == r.meta[i] && more[r.meta.len() as int] == p);
        },
    }
}

proof fn lemma_twice_stays(a: Seq<PropertyView>, b: Seq<PropertyView>)
    requires
        !names_once(a),
    ensures
        !names_once(a + b),
{
    let (i, j) = choose|i: int, j: int|
        0 <= i < j < a.len() && (#[trigger] a[i]).namespace == (#[trigger] a[j]).namespace
            && a[i].name == a[j].name;
    assert((a + b)[i] == a[i] && (a + b)[j] == a[j]);
}

/// The places of the data attributes of an element from `i` on.
pub open spec fn attribute_places(e: ElementView, i: int) -> Seq<LocationView>
    decreases e.attrs.len() - i,
{
    if i < 0 || i >= e.attrs.len() {
        Seq::empty()
    } else if e.attrs[i].ns matches Some(ns) && forms::is_data(document::shape_attr(e.attrs[i])) {
        seq![
            LocationView {
                namespace: e.attrs[i].ns->Some_0,
                name: e.attrs[i].local,
                prefix: e.attrs[i].prefix,
                form: XmpPropertyForm::Attribute,
                span: e.tag,
            },
        ] + attribute_places(e, i + 1)
    } else {
        attribute_places(e, i + 1)
    }
}

/// The place of an element.
pub open spec fn element_place(child: ElementView) -> LocationView {
    LocationView {
        namespace: child.ns->Some_0,
        name: child.local,
        prefix: child.prefix,
        form: XmpPropertyForm::Element,
        span: child.span,
    }
}

/// The places of the properties that an element declares: its data attributes and its children.
pub open spec fn places(e: ElementView) -> Seq<LocationView> {
    attribute_places(e, 0) + Seq::new(e.children.len(), |j: int| element_place(e.children[j]))
}

/// The places of the properties that some elements declare.
pub open spec fn all_places(s: Seq<ElementView>) -> Seq<LocationView>
    decreases s.len(),
{
    if s.len() == 0 {
        Seq::empty()
    } else {
        places(s[0]) + all_places(s.drop_first())
    }
}

pub proof fn lemma_attributes(r: Reading, e: ElementView, i: int)
    requires
        is_aligned(r),
        0 <= i <= e.attrs.len(),
    ensures
        ({
            let data = reader::data_properties(reader::shape(e).attrs.skip(i));
            match document::after_attributes(r, e, i) {
                Ok(next) => {
                    &&& is_aligned(next)
                    &&& next.meta == r.meta + data
                    &&& next.properties == r.properties + attribute_places(e, i)
                    &&& next.descriptions == r.descriptions
                },
                Err(_) => !names_once(r.meta + data),
            }
        }),
    decreases e.attrs.len() - i,
{
    let attrs = reader::shape(e).attrs;
    let data = reader::data_properties(attrs.skip(i));
    assert(attrs.len() == e.attrs.len());
    if i < e.attrs.len() {
        let x = attrs[i];
        assert(x == document::shape_attr(e.attrs[i]));
        let rest = attrs.skip(i + 1);
        let after = reader::data_properties(rest);
        assert(attrs.skip(i) =~= seq![x] + rest);
        forms::law_data_attributes_are_properties(seq![x], rest, x);
        match reader::data_property(x) {
            None => {
                assert(data =~= after);
                lemma_attributes(r, e, i + 1);
            },
            Some(p) => {
                let location = document::attribute_location(e, e.attrs[i], p);
                assert(data == seq![p] + after);
                assert(r.meta + data =~= r.meta.push(p) + after);
                lemma_noted(r, p, location, e.span);
                match document::noted(r, p, location, e.span) {
                    Ok(next) => {
                        lemma_attributes(next, e, i + 1);
                        assert(r.properties.push(location) + attribute_places(e, i + 1)
                            =~= r.properties + attribute_places(e, i));
                    },
                    Err(_) => {
                        lemma_twice_stays(r.meta.push(p), after);
                    },
                }
            },
        }
    } else {
        assert(attrs.skip(i) =~= Seq::empty());
        assert(data =~= Seq::empty());
        assert(r.meta + data =~= r.meta);
        assert(r.properties + attribute_places(e, i) =~= r.properties);
    }
}

pub proof fn lemma_children(r: Reading, e: ElementView, i: int)
    requires
        is_aligned(r),
        0 <= i <= e.children.len(),
    ensures
        ({
            let rest = reader::shape(e).children.skip(i);
            let there = Seq::new(
                (e.children.len() - i) as nat,
                |j: int| element_place(e.children[i + j]),
            );
            match document::after_children(r, e, i) {
                Ok(next) => {
                    &&& is_aligned(next)
                    &&& reader::properties_of(rest) is Ok
                    &&& next.meta == r.meta + reader::properties_of(rest)->Ok_0
                    &&& next.properties == r.properties + there
                    &&& next.descriptions == r.descriptions
                },
                Err(_) => reader::properties_of(rest) is Err || !names_once(
                    r.meta + reader::properties_of(rest)->Ok_0,
                ),
            }
        }),
    decreases e.children.len() - i,
{
    let shapes = reader::shape(e).children;
    let rest = shapes.skip(i);
    let there = Seq::new((e.children.len() - i) as nat, |j: int| element_place(e.children[i + j]));
    reader::lemma_shapes(e.children);
    if i < e.children.len() {
        let child = e.children[i];
        assert(rest[0] == reader::shape(child));
        assert(rest.drop_first() =~= shapes.skip(i + 1));
        if let Ok(p) = reader::property_of(reader::shape(child)) {
            let location = element_place(child);
            let behind = reader::properties_of(shapes.skip(i + 1));
            let later = Seq::new(
                (e.children.len() - i - 1) as nat,
                |j: int| element_place(e.children[i + 1 + j]),
            );
            lemma_noted(r, p, location, child.span);
            match document::noted(r, p, location, child.span) {
                Ok(next) => {
                    lemma_children(next, e, i + 1);
                    assert(r.properties.push(location) + later =~= r.properties + there);
                    if let Ok(others) = behind {
                        assert(r.meta.push(p) + others =~= r.meta + (seq![p] + others));
                    }
                },
                Err(_) => {
                    if let Ok(others) = behind {
                        lemma_twice_stays(r.meta.push(p), others);
                        assert(r.meta.push(p) + others =~= r.meta + (seq![p] + others));
                    }
                },
            }
        }
    } else {
        assert(rest =~= Seq::empty());
        assert(reader::properties_of(rest) == Ok::<Seq<PropertyView>, ErrorView>(Seq::empty()));
        assert(r.meta + Seq::<PropertyView>::empty() =~= r.meta);
        assert(r.properties + there =~= r.properties);
    }
}

pub proof fn lemma_description(r: Reading, e: ElementView)
    requires
        is_aligned(r),
    ensures
        ({
            let fields = reader::fields_of(reader::shape(e));
            match document::after_description(r, e) {
                Ok(next) => {
                    &&& is_aligned(next)
                    &&& fields is Ok
                    &&& next.meta == r.meta + fields->Ok_0
                    &&& next.properties == r.properties + places(e)
                    &&& next.descriptions == r.descriptions.push(document::description_of(e))
                },
                Err(_) => fields is Err || !names_once(r.meta + fields->Ok_0),
            }
        }),
{
    let started = Reading { descriptions: r.descriptions.push(document::description_of(e)), ..r };
    let shape = reader::shape(e);
    let data = reader::data_properties(shape.attrs);
    assert(shape.attrs.skip(0) =~= shape.attrs);
    assert(shape.children.skip(0) =~= shape.children);
    lemma_attributes(started, e, 0);
    match document::after_attributes(started, e, 0) {
        Ok(next) => {
            lemma_children(next, e, 0);
            let there = Seq::new(
                (e.children.len() - 0) as nat,
                |j: int| element_place(e.children[0 + j]),
            );
            assert(there =~= Seq::new(e.children.len(), |j: int| element_place(e.children[j])));
            assert(r.properties + attribute_places(e, 0) + there =~= r.properties + places(e));
            if let Ok(others) = reader::properties_of(shape.children) {
                assert(r.meta + data + others =~= r.meta + (data + others));
            }
        },
        Err(_) => {
            if let Ok(others) = reader::properties_of(shape.children) {
                lemma_twice_stays(r.meta + data, others);
                assert(r.meta + data + others =~= r.meta + (data + others));
            }
        },
    }
}

pub proof fn lemma_descriptions(r: Reading, rdf: ElementView, i: int)
    requires
        is_aligned(r),
        0 <= i <= rdf.children.len(),
    ensures
        ({
            let rest = reader::shape(rdf).children.skip(i);
            match document::after_descriptions(r, rdf, i) {
                Ok(next) => {
                    &&& are_readable(rest)
                    &&& names_once(next.meta)
                    &&& next.meta == r.meta + declared(rest)
                    &&& next.properties == r.properties + all_places(rdf.children.skip(i))
                    &&& next.descriptions.len() == r.descriptions.len() + rdf.children.len() - i
                    &&& forall|k: int|
                        0 <= k < r.descriptions.len() ==> #[trigger] next.descriptions[k]
                            == r.descriptions[k]
                    &&& forall|k: int|
                        i <= k < rdf.children.len() ==> next.descriptions[r.descriptions.len() + k
                            - i] == document::description_of(#[trigger] rdf.children[k])
                },
                Err(_) => !are_readable(rest) || !names_once(r.meta + declared(rest)),
            }
        }),
    decreases rdf.children.len() - i,
{
    let shapes = reader::shape(rdf).children;
    let rest = shapes.skip(i);
    reader::lemma_shapes(rdf.children);
    if i < rdf.children.len() {
        let e = rdf.children[i];
        let behind = shapes.skip(i + 1);
        assert(rest[0] == reader::shape(e));
        assert(rest.drop_first() =~= behind);
        assert(rdf.children.skip(i)[0] == e);
        assert(rdf.children.skip(i).drop_first() =~= rdf.children.skip(i + 1));
        let fields = reader::fields_of(rest[0]);
        if are_readable(behind) && fields is Ok && document::is_named(
            e,
            RDF_NAMESPACE@,
            "Description"@,
        ) {
            assert forall|k: int| 0 <= k < rest.len() implies (#[trigger] rest[k]).ns == Some(
                RDF_NAMESPACE@,
            ) && rest[k].local == "Description"@ && reader::fields_of(rest[k]) is Ok by {
                if k > 0 {
                    assert(behind[k - 1] == rest[k]);
                }
            }
            assert(are_readable(rest));
        }
        if are_readable(rest) {
            assert forall|k: int| 0 <= k < behind.len() implies (#[trigger] behind[k]).ns == Some(
                RDF_NAMESPACE@,
            ) && behind[k].local == "Description"@ && reader::fields_of(behind[k]) is Ok by {
                assert(behind[k] == rest[k + 1]);
            }
            assert(are_readable(behind));
            assert(rest[0].ns == Some(RDF_NAMESPACE@));
        }
        if document::is_named(e, RDF_NAMESPACE@, "Description"@) {
            lemma_description(r, e);
            match document::after_description(r, e) {
                Ok(next) => {
                    lemma_descriptions(next, rdf, i + 1);
                    assert(r.meta + fields->Ok_0 + declared(behind) =~= r.meta + (fields->Ok_0
                        + declared(behind)));
                    assert(r.properties + places(e) + all_places(rdf.children.skip(i + 1))
                        =~= r.properties + all_places(rdf.children.skip(i)));
                    if let Ok(done) = document::after_descriptions(next, rdf, i + 1) {
                        assert forall|k: int| 0 <= k < r.descriptions.len() implies
                            #[trigger] done.descriptions[k] == r.descriptions[k] by {
                            assert(next.descriptions[k] == r.descriptions[k]);
                        }
                        assert(done.descriptions[r.descriptions.len() as int]
                            == next.descriptions[r.descriptions.len() as int]);
                    }
                },
                Err(_) => {
                    if fields is Ok {
                        lemma_twice_stays(r.meta + fields->Ok_0, declared(behind));
                        assert(r.meta + fields->Ok_0 + declared(behind) =~= r.meta + (fields->Ok_0
                            + declared(behind)));
                    }
                },
            }
        }
    } else {
        assert(rest =~= Seq::empty());
        assert(rdf.children.skip(i) =~= Seq::empty());
        assert(r.meta + declared(rest) =~= r.meta);
        assert(r.properties + all_places(rdf.children.skip(i)) =~= r.properties);
    }
}

/// The graph of a document is what its descriptions declare, all of it and in its order: the fields
/// of each of them, its data attributes and then its elements. A document is refused just where it
/// has no `rdf:RDF`, where something in that is no `rdf:Description` or cannot be read, or where a
/// name is declared twice.
pub proof fn law_the_graph_is_what_is_declared(root: ElementView)
    ensures
        match document::rdf_of(root) {
            None => document::interpreted(root) is Err,
            Some(rdf) => {
                let s = reader::shape(rdf).children;
                match document::interpreted(root) {
                    Ok(d) => {
                        &&& are_readable(s)
                        &&& d.meta == declared(s)
                        &&& names_once(d.meta)
                        &&& d.properties == all_places(rdf.children)
                        &&& d.rdf_prefix == rdf.prefix
                        &&& d.descriptions.len() == rdf.children.len()
                        &&& forall|k: int|
                            0 <= k < rdf.children.len() ==> (#[trigger] d.descriptions[k]).span
                                == rdf.children[k].span
                    },
                    Err(_) => !are_readable(s) || !names_once(declared(s)),
                }
            },
        },
{
    if let Some(rdf) = document::rdf_of(root) {
        let nothing = document::nothing_read();
        let s = reader::shape(rdf).children;
        assert(s.skip(0) =~= s);
        assert(rdf.children.skip(0) =~= rdf.children);
        lemma_descriptions(nothing, rdf, 0);
        assert(nothing.meta + declared(s) =~= declared(s));
        assert(nothing.properties + all_places(rdf.children) =~= all_places(rdf.children));
        if let Ok(d) = document::interpreted(root) {
            assert forall|k: int| 0 <= k < rdf.children.len() implies (
            #[trigger] d.descriptions[k]).span == rdf.children[k].span by {
                assert(d.descriptions[0 + k - 0] == document::description_of(rdf.children[k]));
            }
        }
    }
}

/// The `rdf:RDF` element of a document is its root, or the first such child of an `x:xmpmeta` root.
pub proof fn law_the_wrapper_may_be_left_out(root: ElementView, i: int)
    requires
        0 <= i < root.children.len(),
        root.ns == Some(XMPMETA_NAMESPACE@),
        root.local == "xmpmeta"@,
        root.children[i].ns == Some(RDF_NAMESPACE@),
        root.children[i].local == "RDF"@,
        forall|j: int|
            0 <= j < i ==> (#[trigger] root.children[j]).ns != Some(RDF_NAMESPACE@)
                || root.children[j].local != "RDF"@,
    ensures
        match (document::interpreted(root), document::interpreted(root.children[i])) {
            (Ok(a), Ok(b)) => {
                &&& a.meta == b.meta
                &&& a.properties == b.properties
                &&& a.descriptions == b.descriptions
                &&& a.root_is_xmpmeta
                &&& !b.root_is_xmpmeta
            },
            (Err(a), Err(b)) => a == b,
            _ => false,
        },
{
    reveal_strlit("xmpmeta");
    reveal_strlit("RDF");
    assert("xmpmeta"@.len() == 7 && "RDF"@.len() == 3);
    lemma_rdf_place(root.children, 0, i);
    assert(document::rdf_of(root) == Some(root.children[i]));
    assert(document::rdf_of(root.children[i]) == Some(root.children[i]));
}

proof fn lemma_rdf_place(s: Seq<ElementView>, from: int, i: int)
    requires
        0 <= from <= i < s.len(),
        s[i].ns == Some(RDF_NAMESPACE@),
        s[i].local == "RDF"@,
        forall|j: int|
            0 <= j < i ==> (#[trigger] s[j]).ns != Some(RDF_NAMESPACE@) || s[j].local != "RDF"@,
    ensures
        document::rdf_from(s, from) == Some(i),
    decreases i - from,
{
    if from < i {
        assert(s[from].ns != Some(RDF_NAMESPACE@) || s[from].local != "RDF"@);
        lemma_rdf_place(s, from + 1, i);
    }
}

// ---------------------------------------------------------------------------------------------
// The layout
// ---------------------------------------------------------------------------------------------

/// Whether an element is another one or stands in it, at any depth.
pub open spec fn is_within(x: ElementView, e: ElementView) -> bool
    decreases e,
{
    x == e || exists|i: int| 0 <= i < e.children.len() && is_within(x, #[trigger] e.children[i])
}

proof fn lemma_bindings_among(s: Seq<ElementView>, i: int, b: BindingView)
    requires
        0 <= i < s.len(),
        document::bindings_in(s[i]).contains(b),
    ensures
        document::bindings_among(s).contains(b),
    decreases s.len(),
{
    let before = document::bindings_among(s.drop_last());
    let last = document::bindings_in(s.last());
    if i < s.len() - 1 {
        lemma_bindings_among(s.drop_last(), i, b);
        let k = choose|k: int| 0 <= k < before.len() && before[k] == b;
        assert((before + last)[k] == b);
    } else {
        let k = choose|k: int| 0 <= k < last.len() && last[k] == b;
        assert((before + last)[before.len() + k] == b);
    }
}

/// Every namespace declaration in a document is among its bindings, at whatever depth it stands.
pub proof fn law_every_binding_is_listed(root: ElementView, x: ElementView, i: int)
    requires
        is_within(x, root),
        0 <= i < x.bindings.len(),
    ensures
        document::bindings_in(root).contains(x.bindings[i]),
    decreases root,
{
    let among = document::bindings_among(root.children);
    if x == root {
        assert((root.bindings + among)[i] == x.bindings[i]);
    } else {
        let k = choose|k: int| 0 <= k < root.children.len() && is_within(x, #[trigger] root.children[k]);
        law_every_binding_is_listed(root.children[k], x, i);
        lemma_bindings_among(root.children, k, x.bindings[i]);
        let n = choose|n: int| 0 <= n < among.len() && among[n] == x.bindings[i];
        assert((root.bindings + among)[root.bindings.len() + n] == x.bindings[i]);
    }
}

proof fn lemma_nodes_among(s: Seq<ElementView>, i: int, l: LocationView)
    requires
        0 <= i < s.len(),
        document::nodes_in(s[i]).contains(l) || document::element_nodes(s[i]).contains(l),
    ensures
        document::nodes_among(s).contains(l),
    decreases s.len(),
{
    let before = document::nodes_among(s.drop_last());
    let own = document::element_nodes(s.last());
    let last = document::nodes_in(s.last());
    if i < s.len() - 1 {
        lemma_nodes_among(s.drop_last(), i, l);
        let k = choose|k: int| 0 <= k < before.len() && before[k] == l;
        assert((before + own + last)[k] == l);
    } else if own.contains(l) {
        let k = choose|k: int| 0 <= k < own.len() && own[k] == l;
        assert((before + own + last)[before.len() + k] == l);
    } else {
        let k = choose|k: int| 0 <= k < last.len() && last[k] == l;
        assert((before + own + last)[before.len() + own.len() + k] == l);
    }
}

proof fn lemma_nodes_below(root: ElementView, k: int, l: LocationView)
    requires
        0 <= k < root.children.len(),
        document::nodes_in(root.children[k]).contains(l) || document::element_nodes(
            root.children[k],
        ).contains(l),
    ensures
        document::nodes_in(root).contains(l),
{
    let first = document::attribute_nodes(root, root.attrs);
    let among = document::nodes_among(root.children);
    lemma_nodes_among(root.children, k, l);
    let n = choose|n: int| 0 <= n < among.len() && among[n] == l;
    assert((first + among)[first.len() + n] == l);
}

/// Every element that holds data is among the nodes of a document, at whatever depth it stands:
/// every one in a namespace that is neither that of RDF nor that of the wrapper.
pub proof fn law_every_data_element_is_listed(root: ElementView, parent: ElementView, i: int)
    requires
        is_within(parent, root),
        0 <= i < parent.children.len(),
        parent.children[i].ns matches Some(ns) && ns != RDF_NAMESPACE@ && ns != XMPMETA_NAMESPACE@,
    ensures
        document::nodes_in(root).contains(element_place(parent.children[i])),
    decreases root,
{
    let l = element_place(parent.children[i]);
    if parent == root {
        assert(document::element_nodes(root.children[i])[0] == l);
        lemma_nodes_below(root, i, l);
    } else {
        let k = choose|k: int|
            0 <= k < root.children.len() && is_within(parent, #[trigger] root.children[k]);
        law_every_data_element_is_listed(root.children[k], parent, i);
        lemma_nodes_below(root, k, l);
    }
}

proof fn lemma_attribute_node(e: ElementView, attrs: Seq<AttrView>, i: int)
    requires
        0 <= i < attrs.len(),
        forms::is_data(document::shape_attr(attrs[i])),
    ensures
        document::attribute_nodes(e, attrs).contains(
            LocationView {
                namespace: attrs[i].ns->Some_0,
                name: attrs[i].local,
                prefix: attrs[i].prefix,
                form: XmpPropertyForm::Attribute,
                span: e.tag,
            },
        ),
    decreases attrs.len(),
{
    let l = LocationView {
        namespace: attrs[i].ns->Some_0,
        name: attrs[i].local,
        prefix: attrs[i].prefix,
        form: XmpPropertyForm::Attribute,
        span: e.tag,
    };
    let before = document::attribute_nodes(e, attrs.drop_last());
    let all = document::attribute_nodes(e, attrs);
    if i < attrs.len() - 1 {
        lemma_attribute_node(e, attrs.drop_last(), i);
        let k = choose|k: int| 0 <= k < before.len() && before[k] == l;
        assert(all[k] == l);
    } else {
        assert(all[before.len() as int] == l);
    }
}

/// Every data attribute is among the nodes of a document, at whatever depth it stands, with the start
/// tag that it stands in.
pub proof fn law_every_data_attribute_is_listed(root: ElementView, x: ElementView, i: int)
    requires
        is_within(x, root),
        0 <= i < x.attrs.len(),
        forms::is_data(document::shape_attr(x.attrs[i])),
    ensures
        document::nodes_in(root).contains(
            LocationView {
                namespace: x.attrs[i].ns->Some_0,
                name: x.attrs[i].local,
                prefix: x.attrs[i].prefix,
                form: XmpPropertyForm::Attribute,
                span: x.tag,
            },
        ),
    decreases root,
{
    let l = LocationView {
        namespace: x.attrs[i].ns->Some_0,
        name: x.attrs[i].local,
        prefix: x.attrs[i].prefix,
        form: XmpPropertyForm::Attribute,
        span: x.tag,
    };
    if x == root {
        let first = document::attribute_nodes(root, root.attrs);
        let among = document::nodes_among(root.children);
        lemma_attribute_node(root, root.attrs, i);
        let k = choose|k: int| 0 <= k < first.len() && first[k] == l;
        assert((first + among)[k] == l);
    } else {
        let k = choose|k: int|
            0 <= k < root.children.len() && is_within(x, #[trigger] root.children[k]);
        law_every_data_attribute_is_listed(root.children[k], x, i);
        lemma_nodes_below(root, k, l);
    }
}

/// Whether a binding is one of an element in another.
pub open spec fn is_binding_within(b: BindingView, e: ElementView) -> bool {
    exists|x: ElementView, i: int|
        #[trigger] is_within(x, e) && 0 <= i < x.bindings.len() && #[trigger] x.bindings[i] == b
}

/// The number of bindings of an element and of those in it.
pub open spec fn binding_count(e: ElementView) -> nat
    decreases e,
{
    e.bindings.len() + binding_counts(e.children)
}

/// The number of bindings of some elements and of those in them.
pub open spec fn binding_counts(s: Seq<ElementView>) -> nat
    decreases s,
{
    if s.len() == 0 {
        0
    } else {
        binding_count(s[0]) + binding_counts(s.drop_first())
    }
}

proof fn lemma_counts_split(s: Seq<ElementView>)
    requires
        s.len() > 0,
    ensures
        binding_counts(s) == binding_counts(s.drop_last()) + binding_count(s.last()),
    decreases s.len(),
{
    if s.len() > 1 {
        let rest = s.drop_first();
        lemma_counts_split(rest);
        assert(rest.drop_last() =~= s.drop_last().drop_first());
        assert(s.drop_last()[0] == s[0]);
    } else {
        assert(s.drop_first() =~= s.drop_last());
    }
}

proof fn lemma_only_bindings_among(s: Seq<ElementView>)
    ensures
        document::bindings_among(s).len() == binding_counts(s),
        forall|k: int|
            0 <= k < document::bindings_among(s).len() ==> exists|j: int|
                0 <= j < s.len() && is_binding_within(
                    #[trigger] document::bindings_among(s)[k],
                    #[trigger] s[j],
                ),
    decreases s, 0int,
{
    if s.len() > 0 {
        let less = s.drop_last();
        let before = document::bindings_among(less);
        let own = document::bindings_in(s.last());
        let all = document::bindings_among(s);
        lemma_counts_split(s);
        lemma_only_bindings_among(less);
        law_only_bindings_are_listed(s.last());
        assert(all =~= before + own);
        assert forall|k: int| 0 <= k < all.len() implies exists|j: int|
            0 <= j < s.len() && is_binding_within(#[trigger] all[k], #[trigger] s[j]) by {
            if k < before.len() {
                let j = choose|j: int|
                    0 <= j < less.len() && is_binding_within(before[k], #[trigger] less[j]);
                assert(s[j] == less[j] && all[k] == before[k]);
            } else {
                assert(all[k] == own[k - before.len()]);
                assert(is_binding_within(all[k], s[s.len() - 1]));
            }
        }
    }
}

/// The bindings of a document are listed once for each time they are declared, and nothing else is
/// listed with them.
pub proof fn law_only_bindings_are_listed(root: ElementView)
    ensures
        document::bindings_in(root).len() == binding_count(root),
        forall|k: int|
            0 <= k < document::bindings_in(root).len() ==> is_binding_within(
                #[trigger] document::bindings_in(root)[k],
                root,
            ),
    decreases root, 1int,
{
    let among = document::bindings_among(root.children);
    let all = document::bindings_in(root);
    lemma_only_bindings_among(root.children);
    assert(all =~= root.bindings + among);
    assert forall|k: int| 0 <= k < all.len() implies is_binding_within(
        #[trigger] all[k],
        root,
    ) by {
        if k < root.bindings.len() {
            assert(is_within(root, root));
            assert(root.bindings[k] == all[k]);
        } else {
            let b = among[k - root.bindings.len()];
            assert(all[k] == b);
            let j = choose|j: int|
                0 <= j < root.children.len() && is_binding_within(b, #[trigger] root.children[j]);
            let (x, i) = choose|x: ElementView, i: int|
                #[trigger] is_within(x, root.children[j]) && 0 <= i < x.bindings.len()
                    && #[trigger] x.bindings[i] == b;
            assert(is_within(x, root));
        }
    }
}

/// Whether a location is that of a data attribute of an element, or that of an element in another
/// that holds data.
pub open spec fn is_data_within(l: LocationView, e: ElementView) -> bool {
    ||| exists|x: ElementView, i: int|
        {
            &&& #[trigger] is_within(x, e)
            &&& 0 <= i < x.attrs.len()
            &&& forms::is_data(document::shape_attr(#[trigger] x.attrs[i]))
            &&& l == LocationView {
                namespace: x.attrs[i].ns->Some_0,
                name: x.attrs[i].local,
                prefix: x.attrs[i].prefix,
                form: XmpPropertyForm::Attribute,
                span: x.tag,
            }
        }
    ||| exists|x: ElementView, i: int|
        {
            &&& #[trigger] is_within(x, e)
            &&& 0 <= i < x.children.len()
            &&& l == element_place(#[trigger] x.children[i])
            &&& x.children[i].ns matches Some(ns) && ns != RDF_NAMESPACE@ && ns
                != XMPMETA_NAMESPACE@
        }
}

proof fn lemma_data_rises(l: LocationView, e: ElementView, j: int)
    requires
        0 <= j < e.children.len(),
        is_data_within(l, e.children[j]),
    ensures
        is_data_within(l, e),
{
    let c = e.children[j];
    assert forall|x: ElementView| #[trigger] is_within(x, c) implies is_within(x, e) by {}
}

proof fn lemma_only_attributes(e: ElementView, attrs: Seq<AttrView>, k: int)
    requires
        attrs.len() <= e.attrs.len(),
        attrs == e.attrs.take(attrs.len() as int),
        0 <= k < document::attribute_nodes(e, attrs).len(),
    ensures
        is_data_within(document::attribute_nodes(e, attrs)[k], e),
    decreases attrs.len(),
{
    let less = attrs.drop_last();
    let before = document::attribute_nodes(e, less);
    let n = attrs.len() - 1;
    assert(less =~= e.attrs.take(n));
    if k < before.len() {
        lemma_only_attributes(e, less, k);
    } else {
        assert(attrs.last() == e.attrs[n]);
        let x = document::shape_attr(e.attrs[n]);
        assert(seq![x] + Seq::empty() =~= seq![x]);
        forms::law_data_attributes_are_properties(seq![x], Seq::empty(), x);
        assert(is_within(e, e));
    }
}

proof fn lemma_only_nodes_among(parent: ElementView, s: Seq<ElementView>, k: int)
    requires
        s.len() <= parent.children.len(),
        s == parent.children.take(s.len() as int),
        0 <= k < document::nodes_among(s).len(),
    ensures
        is_data_within(document::nodes_among(s)[k], parent),
    decreases parent, 0int, s.len(),
{
    let less = s.drop_last();
    let n = s.len() - 1;
    let last = parent.children[n];
    let before = document::nodes_among(less);
    let here = document::element_nodes(last);
    let all = document::nodes_among(s);
    assert(s.last() == last);
    assert(less =~= parent.children.take(n));
    if k < before.len() {
        lemma_only_nodes_among(parent, less, k);
        assert(all[k] == before[k]);
    } else if k < before.len() + here.len() {
        assert(all[k] == here[k - before.len()]);
        assert(is_within(parent, parent));
        assert(all[k] == element_place(parent.children[n]));
    } else {
        let i = k - before.len() - here.len();
        assert(all[k] == document::nodes_in(last)[i]);
        law_only_data_is_listed(last, i);
        lemma_data_rises(all[k], parent, n);
    }
}

/// Whatever is listed as data of a document is a data attribute of one of its elements, or an
/// element in it that is neither one of RDF nor the wrapper.
pub proof fn law_only_data_is_listed(root: ElementView, k: int)
    requires
        0 <= k < document::nodes_in(root).len(),
    ensures
        is_data_within(document::nodes_in(root)[k], root),
    decreases root, 1int, 0nat,
{
    let own = document::attribute_nodes(root, root.attrs);
    assert(root.attrs.take(root.attrs.len() as int) =~= root.attrs);
    assert(root.children.take(root.children.len() as int) =~= root.children);
    if k < own.len() {
        lemma_only_attributes(root, root.attrs, k);
    } else {
        lemma_only_nodes_among(root, root.children, k - own.len());
    }
}

} // verus!
