//! What the forms of RDF that XMP allows mean: which value, fields, items and qualifiers each of
//! them gives, and which of them give the same.

use vstd::prelude::*;
use vstd::string::*;

use crate::error::ErrorView;
use crate::model;
use crate::model::{ArrayKind, ItemView, PropertyView, ValueView};
use crate::namespace::{RDF_NAMESPACE, XML_NAMESPACE};
use crate::reader;
use crate::reader::{Shape, ShapeAttr};
use crate::text;

verus! {

// ---------------------------------------------------------------------------------------------
// Attributes
// ---------------------------------------------------------------------------------------------

/// Whether an attribute is data: whether it is in a namespace that is neither that of RDF nor that
/// of XML.
pub open spec fn is_data(a: ShapeAttr) -> bool {
    a.ns matches Some(ns) && ns != RDF_NAMESPACE@ && ns != XML_NAMESPACE@
}

/// A property with a text and without qualifiers.
pub open spec fn simple(namespace: Seq<char>, name: Seq<char>, text: Seq<char>) -> PropertyView {
    PropertyView { namespace, name, value: ValueView::Simple(text), qualifiers: Seq::empty() }
}

/// Each data attribute is a property with its namespace, its name and its value, and no other
/// attribute is; the properties come in the order of the attributes.
pub proof fn law_data_attributes_are_properties(
    a: Seq<ShapeAttr>,
    b: Seq<ShapeAttr>,
    x: ShapeAttr,
)
    ensures
        reader::data_properties(a + b) == reader::data_properties(a) + reader::data_properties(b),
        reader::data_properties(seq![x]) == if is_data(x) {
            seq![simple(x.ns->Some_0, x.local, x.value)]
        } else {
            Seq::empty()
        },
        reader::data_properties(Seq::empty()).len() == 0,
    decreases b.len(),
{
    assert(seq![x].drop_last() =~= Seq::<ShapeAttr>::empty());
    assert(seq![x].last() == x);
    assert(reader::data_properties(Seq::<ShapeAttr>::empty()) =~= Seq::empty());
    assert(reader::data_properties(seq![x]) =~= if is_data(x) {
        seq![simple(x.ns->Some_0, x.local, x.value)]
    } else {
        Seq::empty()
    });
    if b.len() == 0 {
        assert(a + b =~= a);
        assert(reader::data_properties(b) =~= Seq::empty());
        assert(reader::data_properties(a + b) =~= reader::data_properties(a)
            + reader::data_properties(b));
    } else {
        law_data_attributes_are_properties(a, b.drop_last(), x);
        assert((a + b).drop_last() =~= a + b.drop_last());
        assert((a + b).last() == b.last());
        assert(reader::data_properties(a + b) =~= reader::data_properties(a)
            + reader::data_properties(b));
    }
}

proof fn lemma_one_more(a: Seq<ShapeAttr>, x: ShapeAttr)
    requires
        is_data(x),
    ensures
        reader::data_properties(a.push(x)) == reader::data_properties(a).push(
            simple(x.ns->Some_0, x.local, x.value),
        ),
{
    law_data_attributes_are_properties(a, seq![x], x);
    assert(a.push(x) =~= a + seq![x]);
    assert(reader::data_properties(a.push(x)) =~= reader::data_properties(a).push(
        simple(x.ns->Some_0, x.local, x.value),
    ));
}

/// No data attribute is lost.
pub proof fn law_every_data_attribute_is_a_property(attrs: Seq<ShapeAttr>, i: int)
    requires
        0 <= i < attrs.len(),
        is_data(attrs[i]),
    ensures
        reader::data_properties(attrs).contains(
            simple(attrs[i].ns->Some_0, attrs[i].local, attrs[i].value),
        ),
{
    let before = attrs.take(i);
    let after = attrs.skip(i + 1);
    let one = seq![attrs[i]];
    assert(attrs =~= before + (one + after));
    law_data_attributes_are_properties(before, one + after, attrs[i]);
    law_data_attributes_are_properties(one, after, attrs[i]);
    let k = reader::data_properties(before).len() as int;
    assert(reader::data_properties(attrs)[k] == simple(
        attrs[i].ns->Some_0,
        attrs[i].local,
        attrs[i].value,
    ));
}

/// The value of an attribute is that of the first with its namespace and name.
pub proof fn law_attributes_are_found_by_name(e: Shape, ns: Seq<char>, local: Seq<char>)
    ensures
        match reader::attr_value(e, ns, local) {
            Some(value) => exists|i: int|
                {
                    &&& 0 <= i < e.attrs.len()
                    &&& (#[trigger] e.attrs[i]).ns == Some(ns)
                    &&& e.attrs[i].local == local
                    &&& e.attrs[i].value == value
                    &&& forall|j: int|
                        0 <= j < i ==> (#[trigger] e.attrs[j]).ns != Some(ns) || e.attrs[j].local
                            != local
                },
            None => forall|i: int|
                0 <= i < e.attrs.len() ==> (#[trigger] e.attrs[i]).ns != Some(ns)
                    || e.attrs[i].local != local,
        },
{
    lemma_attr_from(e.attrs, ns, local, 0);
}

proof fn lemma_attr_from(attrs: Seq<ShapeAttr>, ns: Seq<char>, local: Seq<char>, from: int)
    requires
        0 <= from,
        forall|j: int|
            0 <= j < from && j < attrs.len() ==> (#[trigger] attrs[j]).ns != Some(ns)
                || attrs[j].local != local,
    ensures
        match reader::attr_from(attrs, ns, local, from) {
            Some(value) => exists|i: int|
                {
                    &&& 0 <= i < attrs.len()
                    &&& (#[trigger] attrs[i]).ns == Some(ns)
                    &&& attrs[i].local == local
                    &&& attrs[i].value == value
                    &&& forall|j: int|
                        0 <= j < i ==> (#[trigger] attrs[j]).ns != Some(ns) || attrs[j].local
                            != local
                },
            None => forall|i: int|
                0 <= i < attrs.len() ==> (#[trigger] attrs[i]).ns != Some(ns) || attrs[i].local
                    != local,
        },
    decreases attrs.len() - from,
{
    if from < attrs.len() && !(attrs[from].ns == Some(ns) && attrs[from].local == local) {
        lemma_attr_from(attrs, ns, local, from + 1);
    }
}

// ---------------------------------------------------------------------------------------------
// Properties and fields
// ---------------------------------------------------------------------------------------------

/// The properties of elements are those of each of them, in their order; where one of them has an
/// error, the first such error comes instead.
pub proof fn law_properties_are_those_of_the_elements(s: Seq<Shape>)
    ensures
        match reader::properties_of(s) {
            Ok(properties) => {
                &&& properties.len() == s.len()
                &&& forall|i: int|
                    0 <= i < s.len() ==> reader::property_of(#[trigger] s[i]) == Ok::<
                        PropertyView,
                        ErrorView,
                    >(properties[i])
            },
            Err(error) => exists|i: int|
                {
                    &&& 0 <= i < s.len()
                    &&& reader::property_of(#[trigger] s[i]) == Err::<PropertyView, ErrorView>(error)
                    &&& forall|j: int| 0 <= j < i ==> reader::property_of(#[trigger] s[j]) is Ok
                },
        },
    decreases s.len(),
{
    if s.len() > 0 {
        let rest = s.drop_first();
        law_properties_are_those_of_the_elements(rest);
        match reader::property_of(s[0]) {
            Err(error) => {
                assert(reader::properties_of(s) == Err::<Seq<PropertyView>, ErrorView>(error));
                assert(reader::property_of(s[0]) == Err::<PropertyView, ErrorView>(error));
            },
            Ok(p) => {
                match reader::properties_of(rest) {
                    Ok(others) => {
                        let properties = seq![p] + others;
                        assert forall|i: int| 0 <= i < s.len() implies reader::property_of(
                            #[trigger] s[i],
                        ) == Ok::<PropertyView, ErrorView>(properties[i]) by {
                            if i > 0 {
                                assert(rest[i - 1] == s[i]);
                                assert(properties[i] == others[i - 1]);
                            }
                        }
                    },
                    Err(error) => {
                        let i = choose|i: int|
                            {
                                &&& 0 <= i < rest.len()
                                &&& reader::property_of(#[trigger] rest[i]) == Err::<
                                    PropertyView,
                                    ErrorView,
                                >(error)
                                &&& forall|j: int|
                                    0 <= j < i ==> reader::property_of(#[trigger] rest[j]) is Ok
                            };
                        assert(s[i + 1] == rest[i]);
                        assert forall|j: int| 0 <= j < i + 1 implies reader::property_of(
                            #[trigger] s[j],
                        ) is Ok by {
                            if j > 0 {
                                assert(rest[j - 1] == s[j]);
                            }
                        }
                    },
                }
            },
        }
    }
}

/// A property has the namespace and the name of its element, and the value and the qualifiers that
/// the element gives. An element without a namespace is refused.
pub proof fn law_a_property_has_the_name_of_its_element(e: Shape)
    ensures
        match reader::property_of(e) {
            Ok(p) => e.ns == Some(p.namespace) && p.name == e.local && reader::value_of(e) == Ok::<
                (ValueView, Seq<PropertyView>),
                ErrorView,
            >((p.value, p.qualifiers)),
            Err(_) => e.ns is None || reader::value_of(e) is Err,
        },
{
}

/// The fields of a structure are its data attributes, as simple properties, and its elements: every
/// one of the attributes, and then every one of the elements in their order.
pub proof fn law_fields_are_attributes_and_elements(e: Shape)
    ensures
        match reader::fields_of(e) {
            Ok(fields) => {
                let first = fields.len() - e.children.len();
                &&& 0 <= first
                &&& forall|i: int|
                    0 <= i < e.children.len() ==> reader::property_of(#[trigger] e.children[i])
                        == Ok::<PropertyView, ErrorView>(fields[first + i])
                &&& forall|i: int|
                    0 <= i < e.attrs.len() && is_data(#[trigger] e.attrs[i]) ==> fields.take(
                        first,
                    ).contains(
                        simple(e.attrs[i].ns->Some_0, e.attrs[i].local, e.attrs[i].value),
                    )
                &&& first <= e.attrs.len()
            },
            Err(error) => exists|i: int|
                0 <= i < e.children.len() && reader::property_of(#[trigger] e.children[i]) == Err::<
                    PropertyView,
                    ErrorView,
                >(error),
        },
{
    law_properties_are_those_of_the_elements(e.children);
    if let Ok(fields) = reader::fields_of(e) {
        let data = reader::data_properties(e.attrs);
        let others = reader::properties_of(e.children)->Ok_0;
        let first = fields.len() - e.children.len();
        assert(fields.take(first) =~= data);
        assert forall|i: int| 0 <= i < e.children.len() implies reader::property_of(
            #[trigger] e.children[i],
        ) == Ok::<PropertyView, ErrorView>(fields[first + i]) by {
            assert(fields[first + i] == others[i]);
        }
        assert forall|i: int|
            0 <= i < e.attrs.len() && is_data(#[trigger] e.attrs[i]) implies fields.take(
            first,
        ).contains(simple(e.attrs[i].ns->Some_0, e.attrs[i].local, e.attrs[i].value)) by {
            law_every_data_attribute_is_a_property(e.attrs, i);
        }
        lemma_no_more_than_attributes(e.attrs);
    }
}

proof fn lemma_no_more_than_attributes(attrs: Seq<ShapeAttr>)
    ensures
        reader::data_properties(attrs).len() <= attrs.len(),
    decreases attrs.len(),
{
    if attrs.len() > 0 {
        lemma_no_more_than_attributes(attrs.drop_last());
    }
}

/// Whether an element is a simple property without attributes of its own: a name and a text.
pub open spec fn is_plain(e: Shape, text: Seq<char>) -> bool {
    e.attrs.len() == 0 && e.children.len() == 0 && e.text == text
}

proof fn lemma_plain_value(e: Shape, text: Seq<char>)
    requires
        is_plain(e, text),
    ensures
        reader::value_of(e) == Ok::<(ValueView, Seq<PropertyView>), ErrorView>(
            (ValueView::Simple(text), Seq::empty()),
        ),
{
    assert(reader::data_properties(e.attrs).len() == 0);
}

/// A field may be written as an attribute or as an element: a data attribute behind the others gives
/// the same fields as an element before the others with the same name and the text of the attribute.
pub proof fn law_a_field_may_be_an_attribute(e: Shape, a: ShapeAttr, c: Shape)
    requires
        is_data(a),
        c.ns == a.ns,
        c.local == a.local,
        is_plain(c, a.value),
    ensures
        reader::fields_of(Shape { attrs: e.attrs.push(a), ..e }) == reader::fields_of(
            Shape { children: seq![c] + e.children, ..e },
        ),
{
    let p = simple(a.ns->Some_0, a.local, a.value);
    lemma_one_more(e.attrs, a);
    lemma_plain_value(c, a.value);
    let more = seq![c] + e.children;
    assert(more[0] == c);
    assert(more.drop_first() =~= e.children);
    assert(reader::property_of(c) == Ok::<PropertyView, ErrorView>(p));
    if let Ok(fields) = reader::properties_of(e.children) {
        let data = reader::data_properties(e.attrs);
        assert(data.push(p) + fields =~= data + (seq![p] + fields));
    }
}

/// Whether a node is a structure: an `rdf:Description` without `rdf:value`, or a typed node.
pub open spec fn is_structure_node(n: Shape) -> bool {
    if n.ns == Some(RDF_NAMESPACE@) {
        n.local == "Description"@ && forall|i: int|
            0 <= i < n.children.len() ==> (#[trigger] n.children[i]).ns != Some(RDF_NAMESPACE@)
                || n.children[i].local != "value"@
    } else {
        n.ns is Some
    }
}

proof fn lemma_no_value(s: Seq<Shape>, from: int)
    requires
        forall|i: int|
            0 <= i < s.len() ==> (#[trigger] s[i]).ns != Some(RDF_NAMESPACE@) || s[i].local
                != "value"@,
    ensures
        reader::value_from(s, from) is None,
    decreases s.len() - from,
{
    if 0 <= from < s.len() {
        assert(s[from].ns != Some(RDF_NAMESPACE@) || s[from].local != "value"@);
        lemma_no_value(s, from + 1);
    }
}

proof fn lemma_node_names()
    ensures
        "Description"@ != "Bag"@,
        "Description"@ != "Seq"@,
        "Description"@ != "Alt"@,
        "Bag"@ != "Seq"@,
        "Bag"@ != "Alt"@,
        "Seq"@ != "Alt"@,
{
    reveal_strlit("Description");
    reveal_strlit("Bag");
    reveal_strlit("Seq");
    reveal_strlit("Alt");
    assert("Description"@.len() == 11 && "Bag"@.len() == 3 && "Seq"@.len() == 3 && "Alt"@.len()
        == 3);
    assert("Bag"@[0] == 'B' && "Seq"@[0] == 'S' && "Alt"@[0] == 'A');
}

/// The value of a structure node is the structure of its fields. A typed node adds one qualifier,
/// `rdf:type`, with the URI of its type; an `rdf:Description` adds none.
pub proof fn law_structure_nodes_hold_their_fields(n: Shape)
    requires
        is_structure_node(n),
    ensures
        match reader::node_value(n) {
            Ok((value, qualifiers)) => {
                &&& reader::fields_of(n) == Ok::<Seq<PropertyView>, ErrorView>(
                    value->Structured_0,
                )
                &&& value is Structured
                &&& qualifiers == if n.ns == Some(RDF_NAMESPACE@) {
                    Seq::empty()
                } else {
                    seq![
                        PropertyView {
                            namespace: RDF_NAMESPACE@,
                            name: "type"@,
                            value: ValueView::Uri(n.ns->Some_0 + n.local),
                            qualifiers: Seq::empty(),
                        },
                    ]
                }
            },
            Err(error) => reader::fields_of(n) == Err::<Seq<PropertyView>, ErrorView>(error),
        },
{
    lemma_node_names();
    if n.ns == Some(RDF_NAMESPACE@) {
        lemma_no_value(n.children, 0);
        assert(reader::node_value(n) == reader::description_value(n));
    }
}

/// A structure node gives the same with a field as its last attribute and with that field as its
/// first element.
pub proof fn law_structures_read_attributes_as_fields(n: Shape, a: ShapeAttr, c: Shape)
    requires
        is_structure_node(n),
        is_data(a),
        c.ns == a.ns,
        c.local == a.local,
        is_plain(c, a.value),
    ensures
        reader::node_value(Shape { attrs: n.attrs.push(a), ..n }) == reader::node_value(
            Shape { children: seq![c] + n.children, ..n },
        ),
{
    let left = Shape { attrs: n.attrs.push(a), ..n };
    let right = Shape { children: seq![c] + n.children, ..n };
    assert forall|i: int|
        n.ns == Some(RDF_NAMESPACE@) && 0 <= i < right.children.len() implies (
    #[trigger] right.children[i]).ns != Some(RDF_NAMESPACE@) || right.children[i].local
        != "value"@ by {
        if i > 0 {
            assert(right.children[i] == n.children[i - 1]);
        }
    }
    law_structure_nodes_hold_their_fields(left);
    law_structure_nodes_hold_their_fields(right);
    law_a_field_may_be_an_attribute(n, a, c);
}

/// The concise form of a structure, `rdf:parseType="Resource"`, holds the fields of its element and
/// has no qualifier but the language of the element.
pub proof fn law_concise_structures_hold_their_fields(e: Shape)
    requires
        reader::attr_value(e, RDF_NAMESPACE@, "parseType"@) == Some("Resource"@),
    ensures
        match reader::value_of(e) {
            Ok((value, qualifiers)) => {
                &&& value is Structured
                &&& reader::fields_of(e) == Ok::<Seq<PropertyView>, ErrorView>(value->Structured_0)
                &&& qualifiers == language_of(e)
            },
            Err(error) => reader::fields_of(e) == Err::<Seq<PropertyView>, ErrorView>(error),
        },
{
}

/// The language of an element as a qualifier: an `xml:lang` with the text of the attribute, and
/// nothing where there is no such attribute.
pub open spec fn language_of(e: Shape) -> Seq<PropertyView> {
    match reader::attr_value(e, XML_NAMESPACE@, "lang"@) {
        Some(lang) => seq![simple(XML_NAMESPACE@, "lang"@, lang)],
        None => Seq::empty(),
    }
}

// ---------------------------------------------------------------------------------------------
// Elements around a node
// ---------------------------------------------------------------------------------------------

/// An element around a node has the value of the node. Its own language and data attributes are
/// qualifiers, and those of the node follow them.
pub proof fn law_an_element_has_the_value_of_its_node(e: Shape)
    requires
        reader::attr_value(e, RDF_NAMESPACE@, "parseType"@) is None,
        e.children.len() == 1,
    ensures
        match reader::value_of(e) {
            Ok((value, qualifiers)) => reader::node_value(e.children[0]) matches Ok((inner, own))
                && value == inner && qualifiers == language_of(e) + reader::data_properties(e.attrs)
                + own,
            Err(error) => reader::node_value(e.children[0]) matches Err(inner) && inner == error,
        },
{
}

/// An element with more than one child has no value, unless it is a structure in its concise form;
/// nor has an element with another `rdf:parseType`.
pub proof fn law_prohibited_forms_are_refused(e: Shape)
    ensures
        reader::attr_value(e, RDF_NAMESPACE@, "parseType"@) is None && e.children.len() > 1
            ==> reader::value_of(e) is Err,
        (reader::attr_value(e, RDF_NAMESPACE@, "parseType"@) matches Some(form) && form
            != "Resource"@) ==> reader::value_of(e) is Err,
        e.ns is None ==> reader::property_of(e) is Err,
        !(e.ns == Some(RDF_NAMESPACE@) && e.local == "li"@) ==> reader::item_of(e) is Err,
        e.ns is None ==> reader::node_value(e) is Err,
{
}

// ---------------------------------------------------------------------------------------------
// Qualified values
// ---------------------------------------------------------------------------------------------

proof fn lemma_value_place(s: Seq<Shape>, from: int, k: int)
    requires
        0 <= from <= k < s.len(),
        s[k].ns == Some(RDF_NAMESPACE@),
        s[k].local == "value"@,
        forall|i: int|
            0 <= i < k ==> (#[trigger] s[i]).ns != Some(RDF_NAMESPACE@) || s[i].local != "value"@,
    ensures
        reader::value_from(s, from) == Some(k),
    decreases k - from,
{
    if from < k {
        assert(s[from].ns != Some(RDF_NAMESPACE@) || s[from].local != "value"@);
        lemma_value_place(s, from + 1, k);
    }
}

proof fn lemma_qualifiers(s: Seq<Shape>)
    requires
        forall|i: int|
            0 <= i < s.len() ==> (#[trigger] s[i]).ns != Some(RDF_NAMESPACE@) || s[i].local
                != "value"@,
    ensures
        reader::qualifiers_among(s) == reader::properties_of(s),
    decreases s.len(),
{
    if s.len() > 0 {
        assert(s[0].ns != Some(RDF_NAMESPACE@) || s[0].local != "value"@);
        let rest = s.drop_first();
        assert forall|i: int| 0 <= i < rest.len() implies (#[trigger] rest[i]).ns != Some(
            RDF_NAMESPACE@,
        ) || rest[i].local != "value"@ by {
            assert(rest[i] == s[i + 1]);
        }
        lemma_qualifiers(rest);
    }
}

proof fn lemma_qualifiers_but_one(s: Seq<Shape>, k: int)
    requires
        0 <= k < s.len(),
        s[k].ns == Some(RDF_NAMESPACE@),
        s[k].local == "value"@,
        forall|i: int|
            0 <= i < s.len() && i != k ==> (#[trigger] s[i]).ns != Some(RDF_NAMESPACE@)
                || s[i].local != "value"@,
    ensures
        reader::qualifiers_among(s) == reader::properties_of(s.remove(k)),
    decreases s.len(),
{
    let rest = s.drop_first();
    if k == 0 {
        assert(s.remove(0) =~= rest);
        assert forall|i: int| 0 <= i < rest.len() implies (#[trigger] rest[i]).ns != Some(
            RDF_NAMESPACE@,
        ) || rest[i].local != "value"@ by {
            assert(rest[i] == s[i + 1]);
        }
        lemma_qualifiers(rest);
    } else {
        assert(s[0].ns != Some(RDF_NAMESPACE@) || s[0].local != "value"@);
        assert(rest[k - 1] == s[k]);
        assert forall|i: int| 0 <= i < rest.len() && i != k - 1 implies (#[trigger] rest[i]).ns
            != Some(RDF_NAMESPACE@) || rest[i].local != "value"@ by {
            assert(rest[i] == s[i + 1]);
        }
        lemma_qualifiers_but_one(rest, k - 1);
        assert(s.remove(k).drop_first() =~= rest.remove(k - 1));
        assert(s.remove(k)[0] == s[0]);
    }
}

/// An `rdf:Description` with one `rdf:value`, wherever that stands, has its value. All its other
/// elements are qualifiers, in their order, and its data attributes follow them. Where the
/// `rdf:value` has qualifiers of its own, it is refused.
pub proof fn law_a_qualified_value_has_its_value_and_qualifiers(n: Shape, k: int)
    requires
        n.ns == Some(RDF_NAMESPACE@),
        n.local == "Description"@,
        0 <= k < n.children.len(),
        n.children[k].ns == Some(RDF_NAMESPACE@),
        n.children[k].local == "value"@,
        forall|i: int|
            0 <= i < n.children.len() && i != k ==> (#[trigger] n.children[i]).ns != Some(
                RDF_NAMESPACE@,
            ) || n.children[i].local != "value"@,
    ensures
        match reader::node_value(n) {
            Ok((value, qualifiers)) => {
                &&& reader::value_of(n.children[k]) == Ok::<
                    (ValueView, Seq<PropertyView>),
                    ErrorView,
                >((value, Seq::empty()))
                &&& reader::properties_of(n.children.remove(k)) matches Ok(others) && qualifiers
                    == others + reader::data_properties(n.attrs)
            },
            Err(_) => {
                ||| reader::value_of(n.children[k]) is Err
                ||| reader::value_of(n.children[k])->Ok_0.1.len() > 0
                ||| reader::properties_of(n.children.remove(k)) is Err
            },
        },
{
    lemma_node_names();
    lemma_value_place(n.children, 0, k);
    lemma_qualifiers_but_one(n.children, k);
    assert(reader::node_value(n) == reader::description_value(n));
    if let Ok((value, own)) = reader::value_of(n.children[k]) {
        if own.len() == 0 {
            assert(own =~= Seq::empty());
        }
    }
}

// ---------------------------------------------------------------------------------------------
// Elements without children
// ---------------------------------------------------------------------------------------------

/// Whether `long` is an element around an `rdf:Description` that holds `inner` as its only element
/// and the attributes of `short`, with the language of `short`.
pub open spec fn spells_out(short: Shape, long: Shape, inner: Seq<Shape>) -> bool {
    &&& reader::attr_value(long, RDF_NAMESPACE@, "parseType"@) is None
    &&& reader::attr_value(long, XML_NAMESPACE@, "lang"@) == reader::attr_value(
        short,
        XML_NAMESPACE@,
        "lang"@,
    )
    &&& forall|i: int| 0 <= i < long.attrs.len() ==> !is_data(#[trigger] long.attrs[i])
    &&& long.children.len() == 1
    &&& long.children[0].ns == Some(RDF_NAMESPACE@)
    &&& long.children[0].local == "Description"@
    &&& long.children[0].attrs == short.attrs
    &&& long.children[0].children == inner
}

proof fn lemma_no_data(attrs: Seq<ShapeAttr>)
    requires
        forall|i: int| 0 <= i < attrs.len() ==> !is_data(#[trigger] attrs[i]),
    ensures
        reader::data_properties(attrs).len() == 0,
    decreases attrs.len(),
{
    if attrs.len() > 0 {
        assert(!is_data(attrs.last()));
        lemma_no_data(attrs.drop_last());
    }
}

proof fn lemma_spelt_out(short: Shape, long: Shape, inner: Shape)
    requires
        spells_out(short, long, seq![inner]),
        inner.ns == Some(RDF_NAMESPACE@),
        inner.local == "value"@,
        reader::value_of(inner) matches Ok((_, own)) && own.len() == 0,
    ensures
        reader::value_of(long) == Ok::<(ValueView, Seq<PropertyView>), ErrorView>(
            (reader::value_of(inner)->Ok_0.0, reader::element_qualifiers(short)),
        ),
{
    let node = long.children[0];
    law_a_qualified_value_has_its_value_and_qualifiers(node, 0);
    assert(node.children.remove(0) =~= Seq::<Shape>::empty());
    assert(reader::properties_of(Seq::<Shape>::empty()) == Ok::<Seq<PropertyView>, ErrorView>(
        Seq::empty(),
    ));
    lemma_no_data(long.attrs);
    law_an_element_has_the_value_of_its_node(long);
    let own = reader::node_value(node)->Ok_0.1;
    assert(own =~= reader::data_properties(short.attrs));
    assert(language_of(long) + reader::data_properties(long.attrs) + own
        =~= reader::element_qualifiers(short));
}

/// An element with the attribute `rdf:resource` has that URI as its value, as the same spelt out has
/// with an `rdf:value` that has the attribute; its other attributes qualify it either way.
pub proof fn law_resources_are_uris(short: Shape, long: Shape, inner: Shape, uri: Seq<char>)
    requires
        short.children.len() == 0,
        reader::attr_value(short, RDF_NAMESPACE@, "parseType"@) is None,
        reader::attr_value(short, RDF_NAMESPACE@, "resource"@) == Some(uri),
        spells_out(short, long, seq![inner]),
        inner.ns == Some(RDF_NAMESPACE@),
        inner.local == "value"@,
        inner.children.len() == 0,
        inner.attrs == seq![
            ShapeAttr { ns: Some(RDF_NAMESPACE@), local: "resource"@, value: uri },
        ],
    ensures
        reader::value_of(short) == reader::value_of(long),
        reader::value_of(short) matches Ok((ValueView::Uri(found), _)) && found == uri,
{
    reveal_strlit("parseType");
    reveal_strlit("resource");
    reveal_strlit("lang");
    assert("parseType"@.len() == 9 && "resource"@.len() == 8 && "lang"@.len() == 4);
    reveal_with_fuel(reader::attr_from, 3);
    lemma_namespaces();
    lemma_no_data(inner.attrs);
    assert(reader::element_qualifiers(inner).len() == 0);
    assert(reader::element_qualifiers(inner) =~= Seq::empty());
    lemma_spelt_out(short, long, inner);
}

proof fn lemma_namespaces()
    ensures
        RDF_NAMESPACE@ != XML_NAMESPACE@,
{
    reveal_strlit("http://www.w3.org/1999/02/22-rdf-syntax-ns#");
    reveal_strlit("http://www.w3.org/XML/1998/namespace");
    assert(RDF_NAMESPACE@.len() == 43);
    assert(XML_NAMESPACE@.len() == 36);
}

/// An element with the attribute `rdf:value` has its text as its value, as the same spelt out has
/// with an `rdf:value` element; its other attributes qualify it either way.
pub proof fn law_value_attributes_are_values(short: Shape, long: Shape, inner: Shape, v: Seq<char>)
    requires
        short.children.len() == 0,
        reader::attr_value(short, RDF_NAMESPACE@, "parseType"@) is None,
        reader::attr_value(short, RDF_NAMESPACE@, "resource"@) is None,
        reader::attr_value(short, RDF_NAMESPACE@, "value"@) == Some(v),
        spells_out(short, long, seq![inner]),
        inner.ns == Some(RDF_NAMESPACE@),
        inner.local == "value"@,
        is_plain(inner, v),
    ensures
        reader::value_of(short) == reader::value_of(long),
        reader::value_of(short) matches Ok((ValueView::Simple(found), _)) && found == v,
{
    lemma_plain_value(inner, v);
    lemma_spelt_out(short, long, inner);
}

/// An element with a text that is not blank has this text as its value, as the same spelt out has
/// with an `rdf:value` element; its data attributes qualify it either way.
pub proof fn law_texts_are_values(short: Shape, long: Shape, inner: Shape)
    requires
        short.children.len() == 0,
        reader::attr_value(short, RDF_NAMESPACE@, "parseType"@) is None,
        reader::attr_value(short, RDF_NAMESPACE@, "resource"@) is None,
        reader::attr_value(short, RDF_NAMESPACE@, "value"@) is None,
        exists|i: int| 0 <= i < short.text.len() && !text::is_white_char(#[trigger] short.text[i]),
        spells_out(short, long, seq![inner]),
        inner.ns == Some(RDF_NAMESPACE@),
        inner.local == "value"@,
        is_plain(inner, short.text),
    ensures
        reader::value_of(short) == reader::value_of(long),
        reader::value_of(short) matches Ok((ValueView::Simple(found), _)) && found == short.text,
{
    let i = choose|i: int|
        0 <= i < short.text.len() && !text::is_white_char(#[trigger] short.text[i]);
    text::lemma_not_blank(short.text, i);
    lemma_plain_value(inner, short.text);
    lemma_spelt_out(short, long, inner);
    if reader::data_properties(short.attrs).len() == 0 {
        assert(reader::element_qualifiers(short) =~= reader::lang_qualifiers(short));
    }
}

/// An element without data attributes has its text as its value, blank or not, and no qualifier but
/// its language.
pub proof fn law_plain_texts_are_values(e: Shape)
    requires
        e.children.len() == 0,
        reader::attr_value(e, RDF_NAMESPACE@, "parseType"@) is None,
        reader::attr_value(e, RDF_NAMESPACE@, "resource"@) is None,
        reader::attr_value(e, RDF_NAMESPACE@, "value"@) is None,
        forall|i: int| 0 <= i < e.attrs.len() ==> !is_data(#[trigger] e.attrs[i]),
    ensures
        reader::value_of(e) == Ok::<(ValueView, Seq<PropertyView>), ErrorView>(
            (ValueView::Simple(e.text), language_of(e)),
        ),
{
    lemma_no_data(e.attrs);
}

/// An element with data attributes and nothing but white space in it is a structure of these
/// attributes, as the same spelt out is with an `rdf:Description` that has them.
pub proof fn law_attributes_of_blank_elements_are_fields(short: Shape, long: Shape)
    requires
        short.children.len() == 0,
        reader::attr_value(short, RDF_NAMESPACE@, "parseType"@) is None,
        reader::attr_value(short, RDF_NAMESPACE@, "resource"@) is None,
        reader::attr_value(short, RDF_NAMESPACE@, "value"@) is None,
        exists|i: int| 0 <= i < short.attrs.len() && is_data(#[trigger] short.attrs[i]),
        forall|i: int| 0 <= i < short.text.len() ==> text::is_white_char(#[trigger] short.text[i]),
        spells_out(short, long, Seq::empty()),
    ensures
        reader::value_of(short) == reader::value_of(long),
        reader::value_of(short) matches Ok((ValueView::Structured(fields), _)) && fields
            == reader::data_properties(short.attrs),
{
    let i = choose|i: int| 0 <= i < short.attrs.len() && is_data(#[trigger] short.attrs[i]);
    law_every_data_attribute_is_a_property(short.attrs, i);
    text::lemma_blank_text(short.text);
    let node = long.children[0];
    law_structure_nodes_hold_their_fields(node);
    law_an_element_has_the_value_of_its_node(long);
    lemma_no_data(long.attrs);
    let fields = reader::data_properties(short.attrs);
    assert(reader::properties_of(node.children) == Ok::<Seq<PropertyView>, ErrorView>(
        Seq::empty(),
    ));
    assert(fields + Seq::<PropertyView>::empty() =~= fields);
    assert(language_of(long) + reader::data_properties(long.attrs) + Seq::<PropertyView>::empty()
        =~= reader::lang_qualifiers(short));
}

// ---------------------------------------------------------------------------------------------
// Arrays
// ---------------------------------------------------------------------------------------------

/// The items of an array are those of its elements, in their order: each of them an `rdf:li`, with
/// the value and the qualifiers that it has. Where an element is no `rdf:li` or has no value, the
/// array is refused.
proof fn lemma_items(s: Seq<Shape>)
    ensures
        match reader::items_of(s) {
            Ok(items) => {
                &&& items.len() == s.len()
                &&& forall|i: int|
                    0 <= i < s.len() ==> {
                        &&& (#[trigger] s[i]).ns == Some(RDF_NAMESPACE@)
                        &&& s[i].local == "li"@
                        &&& reader::value_of(s[i]) == Ok::<
                            (ValueView, Seq<PropertyView>),
                            ErrorView,
                        >((items[i].value, items[i].qualifiers))
                    }
            },
            Err(_) => exists|i: int|
                0 <= i < s.len() && ((#[trigger] s[i]).ns != Some(RDF_NAMESPACE@) || s[i].local
                    != "li"@ || reader::value_of(s[i]) is Err),
        },
    decreases s.len(),
{
    if s.len() > 0 {
        let rest = s.drop_first();
        lemma_items(rest);
        if let Ok(item) = reader::item_of(s[0]) {
            match reader::items_of(rest) {
                Ok(others) => {
                    let items = seq![item] + others;
                    assert forall|i: int| 0 <= i < s.len() implies {
                        &&& (#[trigger] s[i]).ns == Some(RDF_NAMESPACE@)
                        &&& s[i].local == "li"@
                        &&& reader::value_of(s[i]) == Ok::<
                            (ValueView, Seq<PropertyView>),
                            ErrorView,
                        >((items[i].value, items[i].qualifiers))
                    } by {
                        if i > 0 {
                            assert(rest[i - 1] == s[i]);
                            assert(items[i] == others[i - 1]);
                        }
                    }
                },
                Err(_) => {
                    let i = choose|i: int|
                        0 <= i < rest.len() && ((#[trigger] rest[i]).ns != Some(RDF_NAMESPACE@)
                            || rest[i].local != "li"@ || reader::value_of(rest[i]) is Err);
                    assert(s[i + 1] == rest[i]);
                },
            }
        } else {
            assert(s[0].ns != Some(RDF_NAMESPACE@) || s[0].local != "li"@ || reader::value_of(
                s[0],
            ) is Err);
        }
    }
}

/// Whether two of some items are in the same language, up to the case of letters.
pub open spec fn share_a_language(items: Seq<ItemView>) -> bool {
    exists|i: int, j: int| 0 <= i < j < items.len() && same_language(items, i, j)
}

/// Whether two items are in the same language, up to the case of letters.
pub open spec fn same_language(items: Seq<ItemView>, i: int, j: int) -> bool {
    model::language(items[i].qualifiers) matches Some(a) && model::language(
        items[j].qualifiers,
    ) matches Some(b) && text::lower_text(a) == text::lower_text(b)
}

proof fn lemma_repeated(items: Seq<ItemView>)
    ensures
        reader::repeated_language(items) is Some <==> share_a_language(items),
    decreases items.len(),
{
    if items.len() > 0 {
        let before = items.drop_last();
        let last = items.len() - 1;
        lemma_repeated(before);
        if share_a_language(before) {
            let (i, j) = choose|i: int, j: int|
                0 <= i < j < before.len() && same_language(before, i, j);
            assert(same_language(items, i, j));
        }
        if reader::repeated_language(items) is Some && reader::repeated_language(before) is None {
            let lang = model::language(items.last().qualifiers)->Some_0;
            let i = choose|i: int|
                0 <= i < before.len() && model::in_language(#[trigger] before[i], lang);
            assert(same_language(items, i, last));
        }
        if share_a_language(items) && !share_a_language(before) {
            let (i, j) = choose|i: int, j: int|
                0 <= i < j < items.len() && same_language(items, i, j);
            if j < last {
                assert(same_language(before, i, j));
            } else {
                let lang = model::language(items.last().qualifiers)->Some_0;
                assert(model::in_language(before[i], lang));
            }
        }
    }
}

/// An array node holds the items of its elements: each an `rdf:li`, in their order, with the value
/// and the qualifiers that it has. Its kind is that of its name. It is refused just where an element
/// is no `rdf:li` or has no value, and where two alternatives are in one language.
pub proof fn law_arrays_hold_every_item(n: Shape, kind: ArrayKind)
    requires
        n.ns == Some(RDF_NAMESPACE@),
        n.local == match kind {
            ArrayKind::Bag => "Bag"@,
            ArrayKind::Sequence => "Seq"@,
            ArrayKind::Alt => "Alt"@,
        },
    ensures
        match reader::node_value(n) {
            Ok((value, qualifiers)) => {
                &&& qualifiers.len() == 0
                &&& value matches ValueView::Array(found, items) && {
                    &&& found == kind
                    &&& items.len() == n.children.len()
                    &&& forall|i: int|
                        0 <= i < items.len() ==> {
                            &&& (#[trigger] n.children[i]).ns == Some(RDF_NAMESPACE@)
                            &&& n.children[i].local == "li"@
                            &&& reader::value_of(n.children[i]) == Ok::<
                                (ValueView, Seq<PropertyView>),
                                ErrorView,
                            >((items[i].value, items[i].qualifiers))
                        }
                    &&& kind == ArrayKind::Alt ==> !share_a_language(items)
                }
            },
            Err(_) => {
                ||| exists|i: int|
                    0 <= i < n.children.len() && ((#[trigger] n.children[i]).ns != Some(
                        RDF_NAMESPACE@,
                    ) || n.children[i].local != "li"@ || reader::value_of(n.children[i]) is Err)
                ||| kind == ArrayKind::Alt && (reader::items_of(n.children) matches Ok(items)
                    && share_a_language(items))
            },
        },
{
    lemma_node_names();
    lemma_items(n.children);
    if let Ok(items) = reader::items_of(n.children) {
        lemma_repeated(items);
    }
}

/// Of several `rdf:value` elements of a description the first gives the value.
pub proof fn law_the_first_value_counts(n: Shape, k: int)
    requires
        n.ns == Some(RDF_NAMESPACE@),
        n.local == "Description"@,
        0 <= k < n.children.len(),
        n.children[k].ns == Some(RDF_NAMESPACE@),
        n.children[k].local == "value"@,
        forall|i: int|
            0 <= i < k ==> (#[trigger] n.children[i]).ns != Some(RDF_NAMESPACE@)
                || n.children[i].local != "value"@,
    ensures
        reader::node_value(n) matches Ok((value, _)) ==> reader::value_of(n.children[k]) == Ok::<
            (ValueView, Seq<PropertyView>),
            ErrorView,
        >((value, Seq::empty())),
        reader::value_of(n.children[k]) matches Err(error) ==> reader::node_value(n) == Err::<
            (ValueView, Seq<PropertyView>),
            ErrorView,
        >(error),
{
    lemma_node_names();
    lemma_value_place(n.children, 0, k);
    if let Ok((_, own)) = reader::value_of(n.children[k]) {
        if own.len() == 0 {
            assert(own =~= Seq::empty());
        }
    }
}

} // verus!
