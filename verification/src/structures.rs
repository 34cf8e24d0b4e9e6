//! That a graph does not depend on the form in which its structures are written.

use vstd::prelude::*;
use vstd::string::*;
use vstd::utf8::*;

use crate::document;
use crate::document::{Reading, SeenView};
use crate::error::ErrorView;
use crate::model;
use crate::model::{PropertyView, ValueView};
use crate::namespace::RDF_NAMESPACE;
use crate::packet;
use crate::reader;
use crate::reader::Shape;
use crate::tree;
use crate::tree::ElementView;

verus! {

// ---------------------------------------------------------------------------------------------
// Trees that are equal but for the form of structures
// ---------------------------------------------------------------------------------------------

/// Whether two elements are equal but for their children.
pub open spec fn same_head(a: Shape, b: Shape) -> bool {
    a.ns == b.ns && a.local == b.local && a.attrs == b.attrs && a.text == b.text
}

/// Whether two elements with a value (properties, fields, array items) are equal but for the form
/// of structures: of their own, or somewhere in them.
pub open spec fn same_property(a: Shape, b: Shape) -> bool
    decreases a, 1int,
{
    ||| a == b
    ||| a.ns == b.ns && a.local == b.local && (reader::are_two_forms(a, b)
        || reader::are_two_forms(b, a))
    ||| same_head(a, b) && if reader::attr_value(a, RDF_NAMESPACE@, "parseType"@) is Some {
        same_properties(a.children, b.children)
    } else {
        same_nodes(a.children, b.children)
    }
}

/// Whether elements with a value are pairwise equal but for the form of structures.
pub open spec fn same_properties(s: Seq<Shape>, t: Seq<Shape>) -> bool
    decreases s, 0int,
{
    &&& s.len() == t.len()
    &&& s.len() > 0 ==> same_property(s[0], t[0]) && same_properties(s.drop_first(), t.drop_first())
}

/// Whether nodes (arrays, descriptions, typed nodes) are pairwise equal but for the form of
/// structures in them.
pub open spec fn same_nodes(s: Seq<Shape>, t: Seq<Shape>) -> bool
    decreases s, 0int,
{
    &&& s.len() == t.len()
    &&& s.len() > 0 ==> same_node(s[0], t[0]) && same_nodes(s.drop_first(), t.drop_first())
}

/// Whether two nodes are equal but for the form of structures in them.
pub open spec fn same_node(a: Shape, b: Shape) -> bool
    decreases a, 1int,
{
    same_head(a, b) && same_properties(a.children, b.children)
}

/// Whether two `rdf:RDF` elements are equal but for the form of structures in them.
pub open spec fn same_rdf(a: Shape, b: Shape) -> bool {
    same_head(a, b) && same_nodes(a.children, b.children)
}

/// Whether two root elements are equal but for the form of structures in them.
pub open spec fn same_root(a: Shape, b: Shape) -> bool {
    if reader::has_name(a, RDF_NAMESPACE@, "RDF"@) {
        same_rdf(a, b)
    } else {
        &&& same_head(a, b)
        &&& a.children.len() == b.children.len()
        &&& forall|i: int|
            0 <= i < a.children.len() ==> same_rdf(#[trigger] a.children[i], b.children[i])
    }
}

// ---------------------------------------------------------------------------------------------
// Values
// ---------------------------------------------------------------------------------------------

/// Elements that are equal but for the form of structures have the same value.
pub proof fn law_values_do_not_depend_on_the_form(a: Shape, b: Shape)
    requires
        same_property(a, b),
    ensures
        reader::value_of(a) == reader::value_of(b),
        reader::property_of(a) == reader::property_of(b),
        reader::item_of(a) == reader::item_of(b),
        a.ns == b.ns,
        a.local == b.local,
    decreases a, 1int,
{
    if a == b {
    } else if reader::are_two_forms(a, b) {
        reader::law_both_structure_forms_agree(a, b);
    } else if reader::are_two_forms(b, a) {
        reader::law_both_structure_forms_agree(b, a);
    } else if reader::attr_value(a, RDF_NAMESPACE@, "parseType"@) is Some {
        lemma_same_properties(a.children, b.children);
    } else if a.children.len() == 0 {
        assert(a.children =~= b.children);
    } else {
        lemma_same_node(a.children[0], b.children[0]);
        assert(b.children.len() == a.children.len());
    }
}

proof fn lemma_same_node(a: Shape, b: Shape)
    requires
        same_node(a, b),
    ensures
        reader::node_value(a) == reader::node_value(b),
    decreases a, 1int,
{
    lemma_same_properties(a.children, b.children);
    lemma_same_value_from(a.children, b.children, 0);
    reader::lemma_value_from(a.children, 0);
    if let Some(k) = reader::value_from(a.children, 0) {
        assert(same_property(a.children[k], b.children[k]));
        law_values_do_not_depend_on_the_form(a.children[k], b.children[k]);
    }
}

proof fn lemma_same_properties(s: Seq<Shape>, t: Seq<Shape>)
    requires
        same_properties(s, t),
    ensures
        s.len() == t.len(),
        reader::properties_of(s) == reader::properties_of(t),
        reader::items_of(s) == reader::items_of(t),
        reader::qualifiers_among(s) == reader::qualifiers_among(t),
        forall|i: int| 0 <= i < s.len() ==> same_property(#[trigger] s[i], t[i]),
        forall|i: int|
            0 <= i < s.len() ==> (#[trigger] s[i]).ns == t[i].ns && s[i].local == t[i].local,
    decreases s, 0int,
{
    if s.len() > 0 {
        law_values_do_not_depend_on_the_form(s[0], t[0]);
        lemma_same_properties(s.drop_first(), t.drop_first());
        assert forall|i: int| 0 <= i < s.len() implies same_property(#[trigger] s[i], t[i]) by {
            if i > 0 {
                assert(s.drop_first()[i - 1] == s[i] && t.drop_first()[i - 1] == t[i]);
            }
        }
        assert forall|i: int| 0 <= i < s.len() implies (#[trigger] s[i]).ns == t[i].ns && s[i].local
            == t[i].local by {
            if i > 0 {
                assert(s.drop_first()[i - 1] == s[i] && t.drop_first()[i - 1] == t[i]);
            }
        }
    }
}

proof fn lemma_same_value_from(s: Seq<Shape>, t: Seq<Shape>, from: int)
    requires
        s.len() == t.len(),
        forall|i: int|
            0 <= i < s.len() ==> (#[trigger] s[i]).ns == t[i].ns && s[i].local == t[i].local,
    ensures
        reader::value_from(s, from) == reader::value_from(t, from),
    decreases s.len() - from,
{
    if 0 <= from < s.len() {
        assert(s[from].ns == t[from].ns);
        lemma_same_value_from(s, t, from + 1);
    }
}

proof fn lemma_same_nodes(s: Seq<Shape>, t: Seq<Shape>, i: int)
    requires
        same_nodes(s, t),
        0 <= i < s.len(),
    ensures
        s.len() == t.len(),
        same_node(s[i], t[i]),
    decreases s.len(),
{
    if i > 0 {
        lemma_same_nodes(s.drop_first(), t.drop_first(), i - 1);
    }
}

// ---------------------------------------------------------------------------------------------
// Documents
// ---------------------------------------------------------------------------------------------

/// Whether two readings hold the same graph and the same names.
spec fn same_reading(r: Reading, q: Reading) -> bool {
    &&& r.meta == q.meta
    &&& r.seen.len() == q.seen.len()
    &&& forall|i: int|
        0 <= i < r.seen.len() ==> (#[trigger] r.seen[i]).namespace == q.seen[i].namespace
            && r.seen[i].name == q.seen[i].name
}

/// Whether two readings failed both or hold the same.
spec fn same_outcome(r: Result<Reading, ErrorView>, q: Result<Reading, ErrorView>) -> bool {
    match (r, q) {
        (Ok(x), Ok(y)) => same_reading(x, y),
        (Err(_), Err(_)) => true,
        _ => false,
    }
}

proof fn lemma_same_seen(
    s: Seq<SeenView>,
    t: Seq<SeenView>,
    namespace: Seq<char>,
    name: Seq<char>,
    from: int,
)
    requires
        s.len() == t.len(),
        forall|i: int|
            0 <= i < s.len() ==> (#[trigger] s[i]).namespace == t[i].namespace && s[i].name
                == t[i].name,
    ensures
        document::seen_from(s, namespace, name, from) is Some == document::seen_from(
            t,
            namespace,
            name,
            from,
        ) is Some,
    decreases s.len() - from,
{
    if 0 <= from < s.len() {
        assert(s[from].namespace == t[from].namespace);
        lemma_same_seen(s, t, namespace, name, from + 1);
    }
}

proof fn lemma_same_attributes(r: Reading, q: Reading, a: ElementView, b: ElementView, i: int)
    requires
        same_reading(r, q),
        reader::shape(a).attrs == reader::shape(b).attrs,
    ensures
        same_outcome(document::after_attributes(r, a, i), document::after_attributes(q, b, i)),
    decreases a.attrs.len() - i,
{
    assert(reader::shape(a).attrs.len() == a.attrs.len());
    assert(reader::shape(b).attrs.len() == b.attrs.len());
    if 0 <= i < a.attrs.len() {
        assert(reader::shape(a).attrs[i] == document::shape_attr(a.attrs[i]));
        assert(reader::shape(b).attrs[i] == document::shape_attr(b.attrs[i]));
        match reader::data_property(document::shape_attr(a.attrs[i])) {
            None => {
                lemma_same_attributes(r, q, a, b, i + 1);
            },
            Some(p) => {
                lemma_same_seen(r.seen, q.seen, p.namespace, p.name, 0);
                let here = document::attribute_location(a, a.attrs[i], p);
                let there = document::attribute_location(b, b.attrs[i], p);
                if let Ok(next) = document::noted(r, p, here, a.span) {
                    let other = document::noted(q, p, there, b.span)->Ok_0;
                    lemma_same_attributes(next, other, a, b, i + 1);
                }
            },
        }
    }
}

proof fn lemma_same_children(r: Reading, q: Reading, a: ElementView, b: ElementView, i: int)
    requires
        same_reading(r, q),
        same_properties(reader::shapes(a.children), reader::shapes(b.children)),
    ensures
        same_outcome(document::after_children(r, a, i), document::after_children(q, b, i)),
    decreases a.children.len() - i,
{
    reader::lemma_shapes(a.children);
    reader::lemma_shapes(b.children);
    lemma_same_properties(reader::shapes(a.children), reader::shapes(b.children));
    if 0 <= i < a.children.len() {
        let left = reader::shapes(a.children)[i];
        let right = reader::shapes(b.children)[i];
        assert(same_property(left, right));
        law_values_do_not_depend_on_the_form(left, right);
        if let Ok(p) = reader::property_of(left) {
            lemma_same_seen(r.seen, q.seen, p.namespace, p.name, 0);
            let here = child_location(a.children[i], p);
            let there = child_location(b.children[i], p);
            if let Ok(next) = document::noted(r, p, here, a.children[i].span) {
                let other = document::noted(q, p, there, b.children[i].span)->Ok_0;
                lemma_same_children(next, other, a, b, i + 1);
            }
        }
    }
}

/// The location of a property in element form.
spec fn child_location(child: ElementView, p: PropertyView) -> document::LocationView {
    document::LocationView {
        namespace: p.namespace,
        name: p.name,
        prefix: child.prefix,
        form: document::XmpPropertyForm::Element,
        span: child.span,
    }
}

proof fn lemma_same_descriptions(r: Reading, q: Reading, a: ElementView, b: ElementView, i: int)
    requires
        same_reading(r, q),
        same_nodes(reader::shapes(a.children), reader::shapes(b.children)),
    ensures
        same_outcome(document::after_descriptions(r, a, i), document::after_descriptions(q, b, i)),
    decreases a.children.len() - i,
{
    reader::lemma_shapes(a.children);
    reader::lemma_shapes(b.children);
    if 0 <= i < a.children.len() {
        lemma_same_nodes(reader::shapes(a.children), reader::shapes(b.children), i);
        let left = a.children[i];
        let right = b.children[i];
        assert(reader::shapes(a.children)[i] == reader::shape(left));
        assert(reader::shapes(b.children)[i] == reader::shape(right));
        let here = Reading { descriptions: r.descriptions.push(document::description_of(left)), ..r };
        let there = Reading {
            descriptions: q.descriptions.push(document::description_of(right)),
            ..q
        };
        lemma_same_attributes(here, there, left, right, 0);
        if let Ok(next) = document::after_attributes(here, left, 0) {
            let other = document::after_attributes(there, right, 0)->Ok_0;
            lemma_same_children(next, other, left, right, 0);
        }
        if let Ok(next) = document::after_description(r, left) {
            if let Ok(other) = document::after_description(q, right) {
                lemma_same_descriptions(next, other, a, b, i + 1);
            }
        }
    }
}

proof fn lemma_same_rdf_from(s: Seq<ElementView>, t: Seq<ElementView>, from: int)
    requires
        s.len() == t.len(),
        forall|i: int|
            0 <= i < s.len() ==> (#[trigger] s[i]).ns == t[i].ns && s[i].local == t[i].local,
    ensures
        document::rdf_from(s, from) == document::rdf_from(t, from),
        document::rdf_from(s, from) matches Some(i) ==> 0 <= i < s.len(),
    decreases s.len() - from,
{
    if 0 <= from < s.len() {
        assert(s[from].ns == t[from].ns);
        lemma_same_rdf_from(s, t, from + 1);
    }
}

/// The `rdf:RDF` elements of roots that are equal but for the form of structures are so too.
proof fn lemma_same_rdf(a: ElementView, b: ElementView)
    requires
        same_root(reader::shape(a), reader::shape(b)),
    ensures
        match (document::rdf_of(a), document::rdf_of(b)) {
            (Some(x), Some(y)) => same_rdf(reader::shape(x), reader::shape(y)),
            (None, None) => true,
            _ => false,
        },
{
    if !document::is_named(a, RDF_NAMESPACE@, "RDF"@) {
        reader::lemma_shapes(a.children);
        reader::lemma_shapes(b.children);
        let left = reader::shape(a).children;
        let right = reader::shape(b).children;
        assert forall|i: int| 0 <= i < a.children.len() implies (#[trigger] a.children[i]).ns
            == b.children[i].ns && a.children[i].local == b.children[i].local by {
            assert(same_rdf(left[i], right[i]));
        }
        lemma_same_rdf_from(a.children, b.children, 0);
        if let Some(i) = document::rdf_from(a.children, 0) {
            assert(same_rdf(left[i], right[i]));
        }
    }
}

proof fn lemma_same_graph(a: ElementView, b: ElementView)
    requires
        same_rdf(reader::shape(a), reader::shape(b)),
    ensures
        same_outcome(
            document::after_descriptions(document::nothing_read(), a, 0),
            document::after_descriptions(document::nothing_read(), b, 0),
        ),
{
    let nothing = document::nothing_read();
    lemma_same_descriptions(nothing, nothing, a, b, 0);
}

/// The graph of a document does not depend on the form of its structures: for two trees that are
/// equal but for that, both cannot be read, or both are read into the same graph. Their spans may
/// differ, as those of two texts do.
pub proof fn law_graphs_do_not_depend_on_the_form(a: ElementView, b: ElementView)
    requires
        same_root(reader::shape(a), reader::shape(b)),
    ensures
        match (document::interpreted(a), document::interpreted(b)) {
            (Ok(x), Ok(y)) => x.meta == y.meta,
            (Err(_), Err(_)) => true,
            _ => false,
        },
{
    lemma_same_rdf(a, b);
    if let Some(rdf) = document::rdf_of(a) {
        lemma_same_graph(rdf, document::rdf_of(b)->Some_0);
    }
}

/// Whether two `rdf:RDF` elements are equal but for one property: child `j` of description `i`, which is a structure in
/// its nested form in the one and in its concise form in the other.
pub open spec fn differ_in_one_form(a: Shape, b: Shape, i: int, j: int) -> bool {
    &&& same_head(a, b)
    &&& a.children.len() == b.children.len()
    &&& 0 <= i < a.children.len()
    &&& forall|k: int| 0 <= k < a.children.len() && k != i ==> #[trigger] a.children[k] == b.children[k]
    &&& same_head(a.children[i], b.children[i])
    &&& a.children[i].children.len() == b.children[i].children.len()
    &&& 0 <= j < a.children[i].children.len()
    &&& forall|k: int|
        0 <= k < a.children[i].children.len() && k != j ==> #[trigger] a.children[i].children[k]
            == b.children[i].children[k]
    &&& a.children[i].children[j].ns == b.children[i].children[j].ns
    &&& a.children[i].children[j].local == b.children[i].children[j].local
    &&& reader::are_two_forms(a.children[i].children[j], b.children[i].children[j])
}

proof fn lemma_properties_by_index(s: Seq<Shape>, t: Seq<Shape>)
    requires
        s.len() == t.len(),
        forall|k: int| 0 <= k < s.len() ==> same_property(#[trigger] s[k], t[k]),
    ensures
        same_properties(s, t),
    decreases s.len(),
{
    if s.len() > 0 {
        assert forall|k: int| 0 <= k < s.len() - 1 implies same_property(
            #[trigger] s.drop_first()[k],
            t.drop_first()[k],
        ) by {
            assert(same_property(s[k + 1], t[k + 1]));
        }
        lemma_properties_by_index(s.drop_first(), t.drop_first());
    }
}

proof fn lemma_nodes_by_index(s: Seq<Shape>, t: Seq<Shape>)
    requires
        s.len() == t.len(),
        forall|k: int| 0 <= k < s.len() ==> same_node(#[trigger] s[k], t[k]),
    ensures
        same_nodes(s, t),
    decreases s.len(),
{
    if s.len() > 0 {
        assert forall|k: int| 0 <= k < s.len() - 1 implies same_node(
            #[trigger] s.drop_first()[k],
            t.drop_first()[k],
        ) by {
            assert(same_node(s[k + 1], t[k + 1]));
        }
        lemma_nodes_by_index(s.drop_first(), t.drop_first());
    }
}

proof fn lemma_one_form(a: Shape, b: Shape, i: int, j: int)
    requires
        differ_in_one_form(a, b, i, j),
    ensures
        same_rdf(a, b),
{
    assert forall|k: int| 0 <= k < a.children.len() implies same_node(
        #[trigger] a.children[k],
        b.children[k],
    ) by {
        let s = a.children[k].children;
        let t = b.children[k].children;
        assert forall|m: int| 0 <= m < s.len() implies same_property(#[trigger] s[m], t[m]) by {
            if k != i {
                assert(a.children[k] == b.children[k]);
            }
        }
        lemma_properties_by_index(s, t);
    }
    lemma_nodes_by_index(a.children, b.children);
}

/// One structure written in its nested form or in its concise form gives the same graph, and in it
/// the property is a structure of the fields, in their order, without qualifiers but for `xml:lang`.
pub proof fn law_one_structure_reads_alike(a: ElementView, b: ElementView, i: int, j: int)
    requires
        document::rdf_of(a) matches Some(x) && document::rdf_of(b) matches Some(y)
            && differ_in_one_form(reader::shape(x), reader::shape(y), i, j),
    ensures
        match (document::interpreted(a), document::interpreted(b)) {
            (Ok(x), Ok(y)) => {
                let e = reader::shape(document::rdf_of(a)->Some_0).children[i].children[j];
                &&& x.meta == y.meta
                &&& reader::fields_of(e.children[0]) matches Ok(fields) && e.ns matches Some(
                    namespace,
                ) && x.meta.contains(
                    PropertyView {
                        namespace,
                        name: e.local,
                        value: ValueView::Structured(fields),
                        qualifiers: reader::lang_qualifiers(e),
                    },
                )
            },
            (Err(_), Err(_)) => true,
            _ => false,
        },
{
    let rdf = document::rdf_of(a)->Some_0;
    let other = document::rdf_of(b)->Some_0;
    let left = reader::shape(rdf);
    let right = reader::shape(other);
    lemma_one_form(left, right, i, j);
    lemma_same_graph(rdf, other);
    if let Ok(d) = document::interpreted(a) {
        reader::lemma_shapes(rdf.children);
        reader::lemma_shapes(rdf.children[i].children);
        law_declared_properties_are_in_the_graph(a, i, j);
        let e = left.children[i].children[j];
        assert(e == reader::shape(rdf.children[i].children[j]));
        reader::law_both_structure_forms_agree(e, right.children[i].children[j]);
    }
}

// ---------------------------------------------------------------------------------------------
// What a graph holds
// ---------------------------------------------------------------------------------------------

/// Whether what has been read names its properties as its graph does.
spec fn is_noted(r: Reading) -> bool {
    forall|k: int|
        0 <= k < r.meta.len() ==> document::seen_from(
            r.seen,
            (#[trigger] r.meta[k]).namespace,
            r.meta[k].name,
            0,
        ) is Some
}

/// A graph grows at its end.
spec fn extends(r: Reading, q: Reading) -> bool {
    &&& r.meta.len() <= q.meta.len()
    &&& forall|k: int| 0 <= k < r.meta.len() ==> #[trigger] q.meta[k] == r.meta[k]
}

proof fn lemma_seen_pushed(
    s: Seq<SeenView>,
    last: SeenView,
    namespace: Seq<char>,
    name: Seq<char>,
    from: int,
)
    requires
        0 <= from <= s.len(),
    ensures
        document::seen_from(s, namespace, name, from) is Some ==> document::seen_from(
            s.push(last),
            namespace,
            name,
            from,
        ) is Some,
        last.namespace == namespace && last.name == name ==> document::seen_from(
            s.push(last),
            namespace,
            name,
            from,
        ) is Some,
    decreases s.len() - from,
{
    if from < s.len() {
        lemma_seen_pushed(s, last, namespace, name, from + 1);
    }
}

proof fn lemma_noted_extends(
    r: Reading,
    p: PropertyView,
    location: document::LocationView,
    span: packet::XmpSourceSpan,
)
    requires
        is_noted(r),
        document::noted(r, p, location, span) is Ok,
    ensures
        ({
            let next = document::noted(r, p, location, span)->Ok_0;
            is_noted(next) && extends(r, next) && next.meta.len() > 0 && next.meta.last() == p
        }),
{
    let next = document::noted(r, p, location, span)->Ok_0;
    model::lemma_position_from(r.meta, p.namespace, p.name, 0);
    if let Some(k) = model::position(r.meta, p.namespace, p.name) {
        assert(document::seen_from(r.seen, r.meta[k].namespace, r.meta[k].name, 0) is Some);
    }
    assert(next.meta == r.meta.push(p));
    let last = SeenView { namespace: p.namespace, name: p.name, span };
    assert forall|k: int| 0 <= k < next.meta.len() implies document::seen_from(
        next.seen,
        (#[trigger] next.meta[k]).namespace,
        next.meta[k].name,
        0,
    ) is Some by {
        let q = next.meta[k];
        if k < r.meta.len() {
            assert(r.meta[k] == q);
        }
        lemma_seen_pushed(r.seen, last, q.namespace, q.name, 0);
    }
}

proof fn lemma_attributes_extend(r: Reading, e: ElementView, i: int)
    requires
        is_noted(r),
    ensures
        document::after_attributes(r, e, i) matches Ok(next) ==> is_noted(next) && extends(r, next),
    decreases e.attrs.len() - i,
{
    if 0 <= i < e.attrs.len() {
        match reader::data_property(document::shape_attr(e.attrs[i])) {
            None => {
                lemma_attributes_extend(r, e, i + 1);
            },
            Some(p) => {
                let location = document::attribute_location(e, e.attrs[i], p);
                if let Ok(next) = document::noted(r, p, location, e.span) {
                    lemma_noted_extends(r, p, location, e.span);
                    lemma_attributes_extend(next, e, i + 1);
                }
            },
        }
    }
}

proof fn lemma_children_extend(r: Reading, e: ElementView, i: int, j: int)
    requires
        is_noted(r),
        0 <= i,
    ensures
        document::after_children(r, e, i) matches Ok(next) ==> is_noted(next) && extends(r, next)
            && (i <= j < e.children.len() ==> (reader::property_of(
            reader::shape(e.children[j]),
        ) matches Ok(p) && next.meta.contains(p))),
    decreases e.children.len() - i,
{
    if i < e.children.len() {
        let child = e.children[i];
        if let Ok(p) = reader::property_of(reader::shape(child)) {
            let location = child_location(child, p);
            if let Ok(next) = document::noted(r, p, location, child.span) {
                lemma_noted_extends(r, p, location, child.span);
                lemma_children_extend(next, e, i + 1, j);
                if let Ok(done) = document::after_children(next, e, i + 1) {
                    let k = next.meta.len() - 1;
                    assert(done.meta[k] == next.meta[k]);
                    assert(done.meta.contains(p));
                }
            }
        }
    }
}

proof fn lemma_descriptions_extend(r: Reading, rdf: ElementView, m: int, i: int, j: int)
    requires
        is_noted(r),
        0 <= m,
    ensures
        document::after_descriptions(r, rdf, m) matches Ok(next) ==> is_noted(next) && extends(
            r,
            next,
        ) && (m <= i < rdf.children.len() && 0 <= j < rdf.children[i].children.len() ==> (
        reader::property_of(reader::shape(rdf.children[i].children[j])) matches Ok(p)
            && next.meta.contains(p))),
    decreases rdf.children.len() - m,
{
    if m < rdf.children.len() {
        let e = rdf.children[m];
        let started = Reading { descriptions: r.descriptions.push(document::description_of(e)), ..r };
        lemma_attributes_extend(started, e, 0);
        if let Ok(named) = document::after_attributes(started, e, 0) {
            lemma_children_extend(named, e, 0, j);
            if let Ok(next) = document::after_children(named, e, 0) {
                lemma_descriptions_extend(next, rdf, m + 1, i, j);
                if let Ok(done) = document::after_descriptions(next, rdf, m + 1) {
                    if m == i && 0 <= j < e.children.len() {
                        let p = reader::property_of(reader::shape(e.children[j]))->Ok_0;
                        let k = choose|k: int|
                            0 <= k < next.meta.len() && #[trigger] next.meta[k] == p;
                        assert(done.meta[k] == next.meta[k]);
                    }
                }
            }
        }
    }
}

/// The graph of a document that is read holds each property that is declared by an element.
pub proof fn law_declared_properties_are_in_the_graph(root: ElementView, i: int, j: int)
    requires
        document::rdf_of(root) matches Some(rdf) && 0 <= i < rdf.children.len() && 0 <= j
            < rdf.children[i].children.len(),
        document::interpreted(root) is Ok,
    ensures
        ({
            let child = document::rdf_of(root)->Some_0.children[i].children[j];
            reader::property_of(reader::shape(child)) matches Ok(p) && document::interpreted(
                root,
            )->Ok_0.meta.contains(p)
        }),
{
    lemma_descriptions_extend(
        document::nothing_read(),
        document::rdf_of(root)->Some_0,
        0,
        i,
        j,
    );
}

// ---------------------------------------------------------------------------------------------
// Packets
// ---------------------------------------------------------------------------------------------

/// The element tree of the packet that some bytes hold.
pub open spec fn tree_in(bytes: Seq<u8>) -> Result<ElementView, ErrorView> {
    match packet::scanned(bytes) {
        Ok(d) => {
            let content = decode_utf8(packet::span_bytes(d.bytes(), d.envelope.content));
            tree::tree_of(
                document::after_marks(content),
                d.envelope.content.start + 3 * document::leading_marks(content),
            )
        },
        Err(error) => Err(error),
    }
}

/// Two packets whose trees are equal but for the form of structures are both refused, or both read
/// into the same graph.
pub proof fn law_packets_do_not_depend_on_the_form(a: Seq<u8>, b: Seq<u8>)
    requires
        tree_in(a) matches Ok(x) && tree_in(b) matches Ok(y) && same_root(
            reader::shape(x),
            reader::shape(y),
        ),
    ensures
        match (document::graph_in(a), document::graph_in(b)) {
            (Ok(x), Ok(y)) => x == y,
            (Err(_), Err(_)) => true,
            _ => false,
        },
{
    law_graphs_do_not_depend_on_the_form(tree_in(a)->Ok_0, tree_in(b)->Ok_0);
}

} // verus!
