//! The XMP reader: an element tree → an [`XmpMeta`] graph.
//!
//! The reader is deliberately permissive: it accepts the equivalent input forms XMP allows
//! (attribute or element form, `rdf:parseType="Resource"`, abbreviated forms, either quote style,
//! any prefix), and rejects the forms XMP prohibits (`rdf:parseType="Literal"` etc., `rdf:_n` array
//! items, a top-level typed node) with a typed [`XmpError`].

use vstd::prelude::*;
use vstd::string::*;

use crate::error;
use crate::error::{ErrorView, XmpError};
use crate::model;
use crate::model::{
    ArrayKind, ItemView, PropertyView, ValueView, XmpArray, XmpItem, XmpProperty, XmpValue,
};
use crate::namespace::{RDF_NAMESPACE, XML_NAMESPACE};
use crate::text;
use crate::text::{chars_of, join2, join3, join5, same_text, skip_white_from, to_lower_text};
use crate::tree;
use crate::tree::{Attr, AttrView, Element, ElementView};

verus! {

// ---------------------------------------------------------------------------------------------
// What the values of an element depend on
// ---------------------------------------------------------------------------------------------

/// An attribute without its prefix.
pub struct ShapeAttr {
    /// Namespace URI.
    pub ns: Option<Seq<char>>,
    /// Local name.
    pub local: Seq<char>,
    /// Value.
    pub value: Seq<char>,
}

/// An element without prefixes and places.
pub struct Shape {
    /// Namespace URI.
    pub ns: Option<Seq<char>>,
    /// Local name.
    pub local: Seq<char>,
    /// Attributes.
    pub attrs: Seq<ShapeAttr>,
    /// Character data.
    pub text: Seq<char>,
    /// Child elements.
    pub children: Seq<Shape>,
}

/// The attributes of an element without their prefixes.
pub open spec fn shape_attrs(attrs: Seq<AttrView>) -> Seq<ShapeAttr> {
    attrs.map_values(|a: AttrView| ShapeAttr { ns: a.ns, local: a.local, value: a.value })
}

/// The shape of an element.
pub open spec fn shape(e: ElementView) -> Shape
    decreases e,
{
    Shape {
        ns: e.ns,
        local: e.local,
        attrs: shape_attrs(e.attrs),
        text: e.text,
        children: shapes(e.children),
    }
}

/// The shapes of some elements.
pub open spec fn shapes(s: Seq<ElementView>) -> Seq<Shape>
    decreases s,
{
    if s.len() == 0 {
        Seq::empty()
    } else {
        shapes(s.drop_last()).push(shape(s.last()))
    }
}

/// A list of elements has the shapes of its elements.
pub proof fn lemma_shapes(s: Seq<ElementView>)
    ensures
        shapes(s).len() == s.len(),
        forall|i: int| 0 <= i < s.len() ==> #[trigger] shapes(s)[i] == shape(s[i]),
    decreases s.len(),
{
    if s.len() > 0 {
        lemma_shapes(s.drop_last());
        assert forall|i: int| 0 <= i < s.len() implies #[trigger] shapes(s)[i] == shape(s[i]) by {
            if i < s.len() - 1 {
                assert(shapes(s.drop_last())[i] == shape(s.drop_last()[i]));
            }
        }
    }
}

/// The shape of an element of a tree, and those of its children.
pub open spec fn shape_of(e: Element) -> Shape {
    shape(e@)
}

/// The shapes of the children of an element are those of its child elements.
proof fn lemma_child_shapes(e: Element)
    ensures
        shape_of(e).children.len() == e.children@.len(),
        forall|i: int|
            0 <= i < e.children@.len() ==> #[trigger] shape_of(e).children[i] == shape_of(
                e.children@[i],
            ),
{
    tree::lemma_elements_view(e.children@);
    lemma_shapes(e@.children);
    assert forall|i: int| 0 <= i < e.children@.len() implies #[trigger] shape_of(e).children[i]
        == shape_of(e.children@[i]) by {
        assert(e@.children[i] == tree::element_view(e.children@[i]));
    }
}

/// Whether an element has the given namespace URI and local name.
pub open spec fn has_name(e: Shape, ns: Seq<char>, local: Seq<char>) -> bool {
    e.ns == Some(ns) && e.local == local
}

/// The value of the first attribute at or after `from` with the given namespace URI and local name.
pub open spec fn attr_from(
    attrs: Seq<ShapeAttr>,
    ns: Seq<char>,
    local: Seq<char>,
    from: int,
) -> Option<Seq<char>>
    decreases attrs.len() - from,
{
    if from < 0 || from >= attrs.len() {
        None
    } else if attrs[from].ns == Some(ns) && attrs[from].local == local {
        Some(attrs[from].value)
    } else {
        attr_from(attrs, ns, local, from + 1)
    }
}

/// The value of an element's attribute with the given namespace URI and local name.
pub open spec fn attr_value(e: Shape, ns: Seq<char>, local: Seq<char>) -> Option<Seq<char>> {
    attr_from(e.attrs, ns, local, 0)
}

/// A data attribute (one in a real schema namespace, not `rdf:` or `xml:`) as a simple property.
pub open spec fn data_property(a: ShapeAttr) -> Option<PropertyView> {
    match a.ns {
        Some(ns) => if ns == RDF_NAMESPACE@ || ns == XML_NAMESPACE@ {
            None
        } else {
            Some(
                PropertyView {
                    namespace: ns,
                    name: a.local,
                    value: ValueView::Simple(a.value),
                    qualifiers: Seq::empty(),
                },
            )
        },
        None => None,
    }
}

/// The data attributes as simple properties.
pub open spec fn data_properties(attrs: Seq<ShapeAttr>) -> Seq<PropertyView>
    decreases attrs.len(),
{
    if attrs.len() == 0 {
        Seq::empty()
    } else {
        let before = data_properties(attrs.drop_last());
        match data_property(attrs.last()) {
            Some(p) => before.push(p),
            None => before,
        }
    }
}

/// Just the `xml:lang` qualifier of an element, if present.
pub open spec fn lang_qualifiers(e: Shape) -> Seq<PropertyView> {
    match attr_value(e, XML_NAMESPACE@, "lang"@) {
        Some(lang) => seq![model::language_qualifier(lang)],
        None => Seq::empty(),
    }
}

/// An element's qualifiers in forms where attributes annotate the value: `xml:lang` plus every data
/// attribute.
pub open spec fn element_qualifiers(e: Shape) -> Seq<PropertyView> {
    lang_qualifiers(e) + data_properties(e.attrs)
}

// ---------------------------------------------------------------------------------------------
// Values
// ---------------------------------------------------------------------------------------------

/// A property/field/item's value and qualifiers from its element, told apart by attributes
/// and content, not by element name.
///
/// `rdf:parseType` comes first, and only `Resource` (the concise structure form) is allowed. Then
/// comes a single nested node, and without child elements the attributes `rdf:resource` and
/// `rdf:value`. What is left is text, or a structure whose fields are attributes where the text is
/// blank.
pub open spec fn value_of(e: Shape) -> Result<(ValueView, Seq<PropertyView>), ErrorView>
    decreases e, 4int,
{
    match attr_value(e, RDF_NAMESPACE@, "parseType"@) {
        Some(parse_type) => if parse_type == "Resource"@ {
            match fields_of(e) {
                Ok(fields) => Ok((ValueView::Structured(fields), lang_qualifiers(e))),
                Err(error) => Err(error),
            }
        } else {
            Err(
                ErrorView::UnsupportedForm(
                    "rdf:parseType=\""@ + parse_type + "\" on <"@ + e.local
                        + "> (only \"Resource\" is allowed)"@,
                ),
            )
        },
        None => if e.children.len() > 1 {
            Err(
                ErrorView::Prohibited(
                    "<"@ + e.local
                        + "> has multiple child elements; expected one rdf:Bag/Seq/Alt or rdf:Description"@,
                ),
            )
        } else if e.children.len() == 1 {
            match node_value(e.children[0]) {
                Ok((value, qualifiers)) => Ok((value, element_qualifiers(e) + qualifiers)),
                Err(error) => Err(error),
            }
        } else {
            Ok(leaf_value(e))
        },
    }
}

/// The value and qualifiers of an element without child elements.
pub open spec fn leaf_value(e: Shape) -> (ValueView, Seq<PropertyView>) {
    match attr_value(e, RDF_NAMESPACE@, "resource"@) {
        Some(uri) => (ValueView::Uri(uri), element_qualifiers(e)),
        None => match attr_value(e, RDF_NAMESPACE@, "value"@) {
            Some(value) => (ValueView::Simple(value), element_qualifiers(e)),
            None => {
                let data = data_properties(e.attrs);
                if data.len() == 0 {
                    (ValueView::Simple(e.text), lang_qualifiers(e))
                } else if text::trimmed_text(e.text).len() == 0 {
                    (ValueView::Structured(data), lang_qualifiers(e))
                } else {
                    (ValueView::Simple(e.text), element_qualifiers(e))
                }
            },
        },
    }
}

/// A property from its element.
pub open spec fn property_of(e: Shape) -> Result<PropertyView, ErrorView>
    decreases e, 5int,
{
    match e.ns {
        None => Err(ErrorView::Prohibited("property <"@ + e.local + "> has no namespace"@)),
        Some(namespace) => match value_of(e) {
            Ok((value, qualifiers)) => Ok(
                PropertyView { namespace, name: e.local, value, qualifiers },
            ),
            Err(error) => Err(error),
        },
    }
}

/// The properties of some elements, or the error of the first that has one.
pub open spec fn properties_of(s: Seq<Shape>) -> Result<Seq<PropertyView>, ErrorView>
    decreases s, 0int,
{
    if s.len() == 0 {
        Ok(Seq::empty())
    } else {
        match property_of(s[0]) {
            Err(error) => Err(error),
            Ok(p) => match properties_of(s.drop_first()) {
                Ok(rest) => Ok(seq![p] + rest),
                Err(error) => Err(error),
            },
        }
    }
}

/// The struct fields of an element: data attributes followed by child elements.
pub open spec fn fields_of(e: Shape) -> Result<Seq<PropertyView>, ErrorView>
    decreases e, 1int,
{
    match properties_of(e.children) {
        Ok(fields) => Ok(data_properties(e.attrs) + fields),
        Err(error) => Err(error),
    }
}

/// The value of the nested node of a resource-form property: an array, a structure, or, when the
/// node is an `rdf:Description` holding an `rdf:value`, a value with general qualifiers.
/// Any other element is a typed node: a structure with an `rdf:type` qualifier.
pub open spec fn node_value(n: Shape) -> Result<(ValueView, Seq<PropertyView>), ErrorView>
    decreases n, 3int,
{
    if has_name(n, RDF_NAMESPACE@, "Bag"@) {
        match items_of(n.children) {
            Ok(items) => Ok((ValueView::Array(ArrayKind::Bag, items), Seq::empty())),
            Err(error) => Err(error),
        }
    } else if has_name(n, RDF_NAMESPACE@, "Seq"@) {
        match items_of(n.children) {
            Ok(items) => Ok((ValueView::Array(ArrayKind::Sequence, items), Seq::empty())),
            Err(error) => Err(error),
        }
    } else if has_name(n, RDF_NAMESPACE@, "Alt"@) {
        match items_of(n.children) {
            Ok(items) => match repeated_language(items) {
                Some(lang) => Err(ErrorView::DuplicateLang(lang)),
                None => Ok((ValueView::Array(ArrayKind::Alt, items), Seq::empty())),
            },
            Err(error) => Err(error),
        }
    } else if has_name(n, RDF_NAMESPACE@, "Description"@) {
        description_value(n)
    } else {
        match n.ns {
            None => Err(
                ErrorView::Prohibited("typed node <"@ + n.local + "> has no namespace"@),
            ),
            Some(ns) => match fields_of(n) {
                Ok(fields) => Ok(
                    (ValueView::Structured(fields), seq![type_qualifier(ns + n.local)]),
                ),
                Err(error) => Err(error),
            },
        }
    }
}

/// The qualifier that names the type of a typed node.
pub open spec fn type_qualifier(uri: Seq<char>) -> PropertyView {
    PropertyView {
        namespace: RDF_NAMESPACE@,
        name: "type"@,
        value: ValueView::Uri(uri),
        qualifiers: Seq::empty(),
    }
}

/// The index of the first `rdf:value` at or after `from`.
pub open spec fn value_from(s: Seq<Shape>, from: int) -> Option<int>
    decreases s.len() - from,
{
    if from < 0 || from >= s.len() {
        None
    } else if has_name(s[from], RDF_NAMESPACE@, "value"@) {
        Some(from)
    } else {
        value_from(s, from + 1)
    }
}

/// The qualifiers among some elements: the properties of those that are no `rdf:value`.
pub open spec fn qualifiers_among(s: Seq<Shape>) -> Result<Seq<PropertyView>, ErrorView>
    decreases s, 0int,
{
    if s.len() == 0 {
        Ok(Seq::empty())
    } else if has_name(s[0], RDF_NAMESPACE@, "value"@) {
        qualifiers_among(s.drop_first())
    } else {
        match property_of(s[0]) {
            Err(error) => Err(error),
            Ok(p) => match qualifiers_among(s.drop_first()) {
                Ok(rest) => Ok(seq![p] + rest),
                Err(error) => Err(error),
            },
        }
    }
}

/// An `rdf:Description` node as a structure, or as a qualified value when it carries an `rdf:value`
/// child.
pub open spec fn description_value(n: Shape) -> Result<(ValueView, Seq<PropertyView>), ErrorView>
    decreases n, 2int,
{
    let place = value_from(n.children, 0);
    proof {
        lemma_value_from(n.children, 0);
    }
    match place {
        None => match fields_of(n) {
            Ok(fields) => Ok((ValueView::Structured(fields), Seq::empty())),
            Err(error) => Err(error),
        },
        Some(k) => match value_of(n.children[k]) {
            Err(error) => Err(error),
            Ok((value, own)) => if own.len() > 0 {
                Err(
                    ErrorView::Prohibited(
                        "rdf:value must not carry xml:lang or nested qualifiers (Part 1 §7.8)"@,
                    ),
                )
            } else {
                match qualifiers_among(n.children) {
                    Ok(qualifiers) => Ok((value, qualifiers + data_properties(n.attrs))),
                    Err(error) => Err(error),
                }
            },
        },
    }
}

/// Whether two elements are the two forms of one structure: a nested `rdf:Description` without
/// `rdf:value`, and `rdf:parseType="Resource"` on the element itself, around the same fields and
/// with the same `xml:lang`.
pub open spec fn are_two_forms(nested: Shape, concise: Shape) -> bool {
    &&& attr_value(nested, RDF_NAMESPACE@, "parseType"@) is None
    &&& data_properties(nested.attrs).len() == 0
    &&& nested.children.len() == 1
    &&& has_name(nested.children[0], RDF_NAMESPACE@, "Description"@)
    &&& value_from(nested.children[0].children, 0) is None
    &&& attr_value(concise, RDF_NAMESPACE@, "parseType"@) == Some("Resource"@)
    &&& data_properties(concise.attrs) == data_properties(nested.children[0].attrs)
    &&& concise.children == nested.children[0].children
    &&& attr_value(concise, XML_NAMESPACE@, "lang"@) == attr_value(
        nested,
        XML_NAMESPACE@,
        "lang"@,
    )
}

/// A structure has the same value in both of its forms.
pub proof fn law_both_structure_forms_agree(nested: Shape, concise: Shape)
    requires
        are_two_forms(nested, concise),
    ensures
        value_of(concise) == value_of(nested),
        value_of(nested) == match fields_of(nested.children[0]) {
            Ok(fields) => Ok((ValueView::Structured(fields), lang_qualifiers(nested))),
            Err(error) => Err(error),
        },
{
    let node = nested.children[0];
    reveal_strlit("Description");
    reveal_strlit("Bag");
    reveal_strlit("Seq");
    reveal_strlit("Alt");
    assert("Description"@.len() == 11 && "Bag"@.len() == 3 && "Seq"@.len() == 3 && "Alt"@.len()
        == 3);
    assert(node_value(node) == description_value(node));
    assert(element_qualifiers(nested) + Seq::empty() =~= lang_qualifiers(nested));
}

/// An item from an element in an array container.
pub open spec fn item_of(e: Shape) -> Result<ItemView, ErrorView>
    decreases e, 5int,
{
    if has_name(e, RDF_NAMESPACE@, "li"@) {
        match value_of(e) {
            Ok((value, qualifiers)) => Ok(ItemView { value, qualifiers }),
            Err(error) => Err(error),
        }
    } else if e.ns == Some(RDF_NAMESPACE@) && e.local.len() > 0 && e.local[0] == '_' {
        Err(
            ErrorView::Prohibited(
                "rdf:"@ + e.local + " array item (use rdf:li, Part 1 §7.9.3.3)"@,
            ),
        )
    } else {
        Err(ErrorView::Prohibited("<"@ + e.local + "> in an rdf array (expected rdf:li)"@))
    }
}

/// The `rdf:li` items among the children of an array container.
pub open spec fn items_of(s: Seq<Shape>) -> Result<Seq<ItemView>, ErrorView>
    decreases s, 0int,
{
    if s.len() == 0 {
        Ok(Seq::empty())
    } else {
        match item_of(s[0]) {
            Err(error) => Err(error),
            Ok(item) => match items_of(s.drop_first()) {
                Ok(rest) => Ok(seq![item] + rest),
                Err(error) => Err(error),
            },
        }
    }
}

/// Whether one of the items is in the given language.
pub open spec fn has_language(items: Seq<ItemView>, lang: Seq<char>) -> bool {
    exists|i: int| 0 <= i < items.len() && model::in_language(#[trigger] items[i], lang)
}

/// The first language that an item shares with an earlier one; the languages of an `rdf:Alt` have
/// to differ.
pub open spec fn repeated_language(items: Seq<ItemView>) -> Option<Seq<char>>
    decreases items.len(),
{
    if items.len() == 0 {
        None
    } else {
        match repeated_language(items.drop_last()) {
            Some(lang) => Some(lang),
            None => match model::language(items.last().qualifiers) {
                Some(lang) => if has_language(items.drop_last(), lang) {
                    Some(lang)
                } else {
                    None
                },
                None => None,
            },
        }
    }
}

/// A place that was found is one of an `rdf:value`.
pub proof fn lemma_value_from(s: Seq<Shape>, from: int)
    requires
        0 <= from,
    ensures
        value_from(s, from) matches Some(k) ==> from <= k < s.len() && has_name(
            s[k],
            RDF_NAMESPACE@,
            "value"@,
        ),
    decreases s.len() - from,
{
    if from < s.len() && !has_name(s[from], RDF_NAMESPACE@, "value"@) {
        lemma_value_from(s, from + 1);
    }
}

// ---------------------------------------------------------------------------------------------
// Reading values
// ---------------------------------------------------------------------------------------------

/// The mathematical form of a value with its qualifiers.
pub open spec fn value_outcome(result: Result<(XmpValue, Vec<XmpProperty>), XmpError>) -> Result<
    (ValueView, Seq<PropertyView>),
    ErrorView,
> {
    match result {
        Ok((value, qualifiers)) => Ok((value@, model::properties_view(qualifiers@))),
        Err(e) => Err(e@),
    }
}

/// The mathematical form of a list of properties, or of the error in its place.
pub open spec fn properties_outcome(result: Result<Vec<XmpProperty>, XmpError>) -> Result<
    Seq<PropertyView>,
    ErrorView,
> {
    match result {
        Ok(properties) => Ok(model::properties_view(properties@)),
        Err(e) => Err(e@),
    }
}

/// The mathematical form of a list of items, or of the error in its place.
pub open spec fn items_outcome(result: Result<Vec<XmpItem>, XmpError>) -> Result<
    Seq<ItemView>,
    ErrorView,
> {
    match result {
        Ok(items) => Ok(model::items_view(items@)),
        Err(e) => Err(e@),
    }
}

/// Whether an optional text is the given one.
pub(crate) fn is_text(option: &Option<String>, expected: &str) -> (r: bool)
    ensures
        r == (error::option_view(*option) == Some(expected@)),
{
    match option {
        Some(text) => same_text(text.as_str(), expected),
        None => false,
    }
}

/// Whether `e` has the given namespace URI and local name.
pub(crate) fn is_element(e: &Element, ns: &str, local: &str) -> (r: bool)
    ensures
        r == has_name(shape_of(*e), ns@, local@),
{
    is_text(&e.ns, ns) && same_text(e.local.as_str(), local)
}

/// The value of `e`'s attribute with the given namespace URI and local name, if present.
fn attr<'a>(e: &'a Element, ns: &str, local: &str) -> (r: Option<&'a str>)
    ensures
        error::option_view(r) == attr_value(shape_of(*e), ns@, local@),
{
    let ghost attrs = shape_of(*e).attrs;
    let mut i: usize = 0;
    while i < e.attrs.len()
        invariant
            i <= e.attrs@.len(),
            attrs == shape_of(*e).attrs,
            attrs.len() == e.attrs@.len(),
            attr_value(shape_of(*e), ns@, local@) == attr_from(attrs, ns@, local@, i as int),
        decreases e.attrs@.len() - i,
    {
        let a = &e.attrs[i];
        assert(attrs[i as int] == (ShapeAttr { ns: a@.ns, local: a@.local, value: a@.value }));
        if is_text(&a.ns, ns) && same_text(a.local.as_str(), local) {
            return Some(a.value.as_str());
        }
        i = i + 1;
    }
    None
}

/// The shape of an attribute.
pub open spec fn attr_shape(a: Attr) -> ShapeAttr {
    ShapeAttr { ns: a@.ns, local: a@.local, value: a@.value }
}

/// A data attribute as a simple property.
pub(crate) fn data_attr_property(a: &Attr) -> (r: Option<XmpProperty>)
    ensures
        error::option_view(r) == data_property(attr_shape(*a)),
{
    match &a.ns {
        Some(ns) => {
            if same_text(ns.as_str(), RDF_NAMESPACE) || same_text(ns.as_str(), XML_NAMESPACE) {
                None
            } else {
                Some(
                    XmpProperty::new(
                        ns.as_str(),
                        a.local.as_str(),
                        XmpValue::Simple(a.value.clone()),
                    ),
                )
            }
        },
        None => None,
    }
}

/// The data attributes of an element as simple properties.
fn data_attr_properties(e: &Element) -> (r: Vec<XmpProperty>)
    ensures
        model::properties_view(r@) == data_properties(shape_of(*e).attrs),
{
    let ghost attrs = shape_of(*e).attrs;
    let mut properties: Vec<XmpProperty> = Vec::new();
    let mut i: usize = 0;
    while i < e.attrs.len()
        invariant
            i <= e.attrs@.len(),
            attrs == shape_of(*e).attrs,
            attrs.len() == e.attrs@.len(),
            model::properties_view(properties@) == data_properties(attrs.take(i as int)),
        decreases e.attrs@.len() - i,
    {
        proof {
            assert(attrs[i as int] == attr_shape(e.attrs@[i as int]));
            assert(attrs.take(i + 1).drop_last() =~= attrs.take(i as int));
            assert(attrs.take(i + 1).last() == attrs[i as int]);
        }
        if let Some(p) = data_attr_property(&e.attrs[i]) {
            proof {
                model::lemma_properties_push(properties@, p);
            }
            properties.push(p);
        }
        i = i + 1;
    }
    assert(attrs.take(attrs.len() as int) =~= attrs);
    properties
}

/// Just the `xml:lang` qualifier of an element, if present.
fn lang_qualifier(e: &Element) -> (r: Vec<XmpProperty>)
    ensures
        model::properties_view(r@) == lang_qualifiers(shape_of(*e)),
{
    let mut qualifiers: Vec<XmpProperty> = Vec::new();
    if let Some(lang) = attr(e, XML_NAMESPACE, "lang") {
        let qualifier = XmpProperty::new(XML_NAMESPACE, "lang", XmpValue::Simple(lang.to_owned()));
        proof {
            model::lemma_properties_push(qualifiers@, qualifier);
        }
        qualifiers.push(qualifier);
    }
    assert(model::properties_view(qualifiers@) =~= lang_qualifiers(shape_of(*e)));
    qualifiers
}

/// The view of joined lists is the joined views.
proof fn lemma_properties_concat(a: Seq<XmpProperty>, b: Seq<XmpProperty>)
    ensures
        model::properties_view(a + b) == model::properties_view(a) + model::properties_view(b),
{
    model::lemma_properties_view(a);
    model::lemma_properties_view(b);
    model::lemma_properties_view(a + b);
    let whole = model::properties_view(a + b);
    let parts = model::properties_view(a) + model::properties_view(b);
    assert forall|i: int| 0 <= i < whole.len() implies whole[i] == parts[i] by {
        if i < a.len() {
            assert((a + b)[i] == a[i]);
        } else {
            assert((a + b)[i] == b[i - a.len()]);
            assert(model::properties_view(b)[i - a.len()] == model::property_view(b[i - a.len()]));
        }
    }
    assert(whole =~= parts);
}

/// Two lists of properties, one after the other.
fn joined(a: Vec<XmpProperty>, b: Vec<XmpProperty>) -> (r: Vec<XmpProperty>)
    ensures
        model::properties_view(r@) == model::properties_view(a@) + model::properties_view(b@),
{
    let mut a = a;
    let mut b = b;
    proof {
        lemma_properties_concat(a@, b@);
    }
    a.append(&mut b);
    a
}

/// An element's qualifiers in forms where attributes annotate the value.
fn all_qualifiers(e: &Element) -> (r: Vec<XmpProperty>)
    ensures
        model::properties_view(r@) == element_qualifiers(shape_of(*e)),
{
    joined(lang_qualifier(e), data_attr_properties(e))
}

/// Trimming leaves nothing exactly where there is nothing but white space.
proof fn lemma_blank(text: Seq<char>, start: int, end: int)
    requires
        0 <= start < end <= text.len(),
        !text::is_white_char(text[start]),
    ensures
        start < text::white_trimmed_end(text, start, end),
    decreases end,
{
    if text::is_white_char(text[end - 1]) {
        lemma_blank(text, start, end - 1);
    }
}

/// Whether a text holds nothing but white space.
fn is_blank(text: &str) -> (r: bool)
    ensures
        r == (text::trimmed_text(text@).len() == 0),
{
    let chars = chars_of(text);
    let start: usize = skip_white_from(chars.as_slice(), 0);
    proof {
        text::lemma_trim_bounds(text@, start as int, text@.len() as int);
        if start < text@.len() {
            lemma_blank(text@, start as int, text@.len() as int);
        }
    }
    start == chars.len()
}

/// A property/field/item's value and qualifiers from its element.
fn parse_value(e: &Element) -> (r: Result<(XmpValue, Vec<XmpProperty>), XmpError>)
    ensures
        value_outcome(r) == value_of(shape_of(*e)),
    decreases *e, 4int,
{
    proof {
        lemma_child_shapes(*e);
    }
    if let Some(parse_type) = attr(e, RDF_NAMESPACE, "parseType") {
        if same_text(parse_type, "Resource") {
            return match struct_fields(e) {
                Ok(fields) => Ok((XmpValue::Structured(fields), lang_qualifier(e))),
                Err(error) => Err(error),
            };
        }
        return Err(
            XmpError::UnsupportedForm(
                join5(
                    "rdf:parseType=\"",
                    parse_type,
                    "\" on <",
                    e.local.as_str(),
                    "> (only \"Resource\" is allowed)",
                ),
            ),
        );
    }
    if e.children.len() > 1 {
        return Err(
            XmpError::Prohibited(
                join3(
                    "<",
                    e.local.as_str(),
                    "> has multiple child elements; expected one rdf:Bag/Seq/Alt or rdf:Description",
                ),
            ),
        );
    }
    if e.children.len() == 1 {
        assert(shape_of(*e).children[0] == shape_of(e.children@[0]));
        return match parse_node(&e.children[0]) {
            Ok((value, qualifiers)) => Ok((value, joined(all_qualifiers(e), qualifiers))),
            Err(error) => Err(error),
        };
    }
    Ok(parse_leaf(e))
}

/// The value and qualifiers of an element without child elements.
fn parse_leaf(e: &Element) -> (r: (XmpValue, Vec<XmpProperty>))
    ensures
        (r.0@, model::properties_view(r.1@)) == leaf_value(shape_of(*e)),
{
    if let Some(uri) = attr(e, RDF_NAMESPACE, "resource") {
        return (XmpValue::Uri(uri.to_owned()), all_qualifiers(e));
    }
    if let Some(value) = attr(e, RDF_NAMESPACE, "value") {
        return (XmpValue::Simple(value.to_owned()), all_qualifiers(e));
    }
    let data = data_attr_properties(e);
    proof {
        model::lemma_properties_view(data@);
    }
    if data.len() == 0 {
        (XmpValue::Simple(e.text.clone()), lang_qualifier(e))
    } else if is_blank(e.text.as_str()) {
        (XmpValue::Structured(data), lang_qualifier(e))
    } else {
        (XmpValue::Simple(e.text.clone()), all_qualifiers(e))
    }
}

/// Parses a property element into an [`XmpProperty`].
pub(crate) fn parse_property(e: &Element) -> (r: Result<XmpProperty, XmpError>)
    ensures
        error::outcome(r) == property_of(shape_of(*e)),
    decreases *e, 5int,
{
    let namespace = match &e.ns {
        Some(ns) => ns.clone(),
        None => {
            return Err(
                XmpError::Prohibited(
                    join3("property <", e.local.as_str(), "> has no namespace"),
                ),
            );
        },
    };
    match parse_value(e) {
        Ok((value, qualifiers)) => Ok(
            XmpProperty { namespace, name: e.local.clone(), value, qualifiers },
        ),
        Err(error) => Err(error),
    }
}

/// The struct fields of an element: data attributes followed by child elements.
fn struct_fields(e: &Element) -> (r: Result<Vec<XmpProperty>, XmpError>)
    ensures
        properties_outcome(r) == fields_of(shape_of(*e)),
    decreases *e, 1int,
{
    let ghost all = shape_of(*e).children;
    proof {
        lemma_child_shapes(*e);
    }
    let mut fields: Vec<XmpProperty> = Vec::new();
    let mut i: usize = 0;
    assert(all.skip(0) =~= all);
    proof {
        if let Ok(rest) = properties_of(all) {
            assert(model::properties_view(fields@) + rest =~= rest);
        }
    }
    while i < e.children.len()
        invariant
            i <= e.children@.len(),
            all == shape_of(*e).children,
            all.len() == e.children@.len(),
            properties_of(all) == (match properties_of(all.skip(i as int)) {
                Ok(rest) => Ok(model::properties_view(fields@) + rest),
                Err(error) => Err(error),
            }),
        decreases e.children@.len() - i,
    {
        proof {
            lemma_child_shapes(*e);
            assert(all.skip(i as int)[0] == shape_of(e.children@[i as int]));
            assert(all.skip(i as int).drop_first() =~= all.skip(i + 1));
        }
        let ghost before = fields@;
        match parse_property(&e.children[i]) {
            Ok(p) => {
                proof {
                    model::lemma_properties_push(fields@, p);
                    if let Ok(rest) = properties_of(all.skip(i + 1)) {
                        assert(model::properties_view(before) + (seq![p@] + rest)
                            =~= model::properties_view(before).push(p@) + rest);
                    }
                }
                fields.push(p);
            },
            Err(error) => {
                return Err(error);
            },
        }
        i = i + 1;
    }
    assert(all.skip(all.len() as int).len() == 0);
    assert(model::properties_view(fields@) + Seq::<PropertyView>::empty()
        =~= model::properties_view(fields@));
    Ok(joined(data_attr_properties(e), fields))
}

/// Parses the nested node of a resource-form property.
fn parse_node(n: &Element) -> (r: Result<(XmpValue, Vec<XmpProperty>), XmpError>)
    ensures
        value_outcome(r) == node_value(shape_of(*n)),
    decreases *n, 3int,
{
    if is_element(n, RDF_NAMESPACE, "Bag") {
        return match parse_items(n) {
            Ok(items) => Ok((XmpValue::Array(XmpArray::Bag(items)), Vec::new())),
            Err(error) => Err(error),
        };
    }
    if is_element(n, RDF_NAMESPACE, "Seq") {
        return match parse_items(n) {
            Ok(items) => Ok((XmpValue::Array(XmpArray::Sequence(items)), Vec::new())),
            Err(error) => Err(error),
        };
    }
    if is_element(n, RDF_NAMESPACE, "Alt") {
        return match parse_items(n) {
            Ok(items) => match check_unique_langs(&items) {
                Ok(()) => Ok((XmpValue::Array(XmpArray::Alt(items)), Vec::new())),
                Err(error) => Err(error),
            },
            Err(error) => Err(error),
        };
    }
    if is_element(n, RDF_NAMESPACE, "Description") {
        return parse_description_node(n);
    }
    let type_uri = match &n.ns {
        Some(ns) => join2(ns.as_str(), n.local.as_str()),
        None => {
            return Err(
                XmpError::Prohibited(
                    join3("typed node <", n.local.as_str(), "> has no namespace"),
                ),
            );
        },
    };
    match struct_fields(n) {
        Ok(fields) => {
            let qualifier = XmpProperty::new(RDF_NAMESPACE, "type", XmpValue::Uri(type_uri));
            let mut qualifiers: Vec<XmpProperty> = Vec::new();
            proof {
                model::lemma_properties_push(qualifiers@, qualifier);
            }
            qualifiers.push(qualifier);
            assert(model::properties_view(qualifiers@) =~= seq![type_qualifier(type_uri@)]);
            Ok((XmpValue::Structured(fields), qualifiers))
        },
        Err(error) => Err(error),
    }
}

/// Interprets an `rdf:Description` node as a structure, or as a qualified value.
fn parse_description_node(n: &Element) -> (r: Result<(XmpValue, Vec<XmpProperty>), XmpError>)
    ensures
        value_outcome(r) == description_value(shape_of(*n)),
    decreases *n, 2int,
{
    let ghost all = shape_of(*n).children;
    proof {
        lemma_child_shapes(*n);
    }
    let mut k: usize = 0;
    while k < n.children.len() && !is_element(&n.children[k], RDF_NAMESPACE, "value")
        invariant
            k <= n.children@.len(),
            all == shape_of(*n).children,
            all.len() == n.children@.len(),
            forall|i: int|
                0 <= i < n.children@.len() ==> #[trigger] all[i] == shape_of(n.children@[i]),
            value_from(all, 0) == value_from(all, k as int),
        decreases n.children@.len() - k,
    {
        assert(all[k as int] == shape_of(n.children@[k as int]));
        k = k + 1;
    }
    if k == n.children.len() {
        return match struct_fields(n) {
            Ok(fields) => Ok((XmpValue::Structured(fields), Vec::new())),
            Err(error) => Err(error),
        };
    }
    assert(all[k as int] == shape_of(n.children@[k as int]));
    let value = match parse_value(&n.children[k]) {
        Ok((value, own)) => {
            proof {
                model::lemma_properties_view(own@);
            }
            if own.len() > 0 {
                return Err(
                    XmpError::Prohibited(
                        "rdf:value must not carry xml:lang or nested qualifiers (Part 1 §7.8)".to_owned(),
                    ),
                );
            }
            value
        },
        Err(error) => {
            return Err(error);
        },
    };
    let mut qualifiers: Vec<XmpProperty> = Vec::new();
    let mut i: usize = 0;
    assert(all.skip(0) =~= all);
    proof {
        if let Ok(rest) = qualifiers_among(all) {
            assert(model::properties_view(qualifiers@) + rest =~= rest);
        }
    }
    while i < n.children.len()
        invariant
            i <= n.children@.len(),
            k < all.len(),
            all == shape_of(*n).children,
            all.len() == n.children@.len(),
            forall|j: int|
                0 <= j < n.children@.len() ==> #[trigger] all[j] == shape_of(n.children@[j]),
            value_from(all, 0) == Some(k as int),
            value_of(all[k as int]) matches Ok((v, own)) && v == value@ && own.len() == 0,
            qualifiers_among(all) == (match qualifiers_among(all.skip(i as int)) {
                Ok(rest) => Ok(model::properties_view(qualifiers@) + rest),
                Err(error) => Err(error),
            }),
        decreases n.children@.len() - i,
    {
        proof {
            assert(all.skip(i as int)[0] == all[i as int]);
            assert(all.skip(i as int).drop_first() =~= all.skip(i + 1));
        }
        let ghost before = qualifiers@;
        if !is_element(&n.children[i], RDF_NAMESPACE, "value") {
            match parse_property(&n.children[i]) {
                Ok(p) => {
                    proof {
                        model::lemma_properties_push(qualifiers@, p);
                        if let Ok(rest) = qualifiers_among(all.skip(i + 1)) {
                            assert(model::properties_view(before) + (seq![p@] + rest)
                                =~= model::properties_view(before).push(p@) + rest);
                        }
                    }
                    qualifiers.push(p);
                },
                Err(error) => {
                    return Err(error);
                },
            }
        }
        i = i + 1;
    }
    assert(all.skip(all.len() as int).len() == 0);
    assert(model::properties_view(qualifiers@) + Seq::<PropertyView>::empty()
        =~= model::properties_view(qualifiers@));
    Ok((value, joined(qualifiers, data_attr_properties(n))))
}

/// Whether a text begins with an underscore.
fn begins_with_underscore(text: &str) -> (r: bool)
    ensures
        r == (text@.len() > 0 && text@[0] == '_'),
{
    let chars = chars_of(text);
    chars.len() > 0 && chars[0] == '_'
}

/// An item from an element in an array container.
fn parse_item(e: &Element) -> (r: Result<XmpItem, XmpError>)
    ensures
        error::outcome(r) == item_of(shape_of(*e)),
    decreases *e, 5int,
{
    if is_element(e, RDF_NAMESPACE, "li") {
        match parse_value(e) {
            Ok((value, qualifiers)) => Ok(XmpItem { value, qualifiers }),
            Err(error) => Err(error),
        }
    } else if is_text(&e.ns, RDF_NAMESPACE) && begins_with_underscore(e.local.as_str()) {
        Err(
            XmpError::Prohibited(
                join3("rdf:", e.local.as_str(), " array item (use rdf:li, Part 1 §7.9.3.3)"),
            ),
        )
    } else {
        Err(
            XmpError::Prohibited(
                join3("<", e.local.as_str(), "> in an rdf array (expected rdf:li)"),
            ),
        )
    }
}

/// Parses the `rdf:li` items of an array container.
fn parse_items(container: &Element) -> (r: Result<Vec<XmpItem>, XmpError>)
    ensures
        items_outcome(r) == items_of(shape_of(*container).children),
    decreases *container, 0int,
{
    let ghost all = shape_of(*container).children;
    proof {
        lemma_child_shapes(*container);
    }
    let mut items: Vec<XmpItem> = Vec::new();
    let mut i: usize = 0;
    assert(all.skip(0) =~= all);
    proof {
        if let Ok(rest) = items_of(all) {
            assert(model::items_view(items@) + rest =~= rest);
        }
    }
    while i < container.children.len()
        invariant
            i <= container.children@.len(),
            all == shape_of(*container).children,
            all.len() == container.children@.len(),
            items_of(all) == (match items_of(all.skip(i as int)) {
                Ok(rest) => Ok(model::items_view(items@) + rest),
                Err(error) => Err(error),
            }),
        decreases container.children@.len() - i,
    {
        proof {
            lemma_child_shapes(*container);
            assert(all.skip(i as int)[0] == shape_of(container.children@[i as int]));
            assert(all.skip(i as int).drop_first() =~= all.skip(i + 1));
        }
        let ghost before = items@;
        match parse_item(&container.children[i]) {
            Ok(item) => {
                proof {
                    model::lemma_items_push(items@, item);
                    if let Ok(rest) = items_of(all.skip(i + 1)) {
                        assert(model::items_view(before) + (seq![item@] + rest)
                            =~= model::items_view(before).push(item@) + rest);
                    }
                }
                items.push(item);
            },
            Err(error) => {
                return Err(error);
            },
        }
        i = i + 1;
    }
    assert(all.skip(all.len() as int).len() == 0);
    assert(model::items_view(items@) + Seq::<ItemView>::empty() =~= model::items_view(items@));
    Ok(items)
}

/// Whether one of the first `count` items is in the given language.
fn occurs_before(items: &Vec<XmpItem>, count: usize, lang: &str) -> (r: bool)
    requires
        count <= items@.len(),
    ensures
        r == has_language(model::items_view(items@).take(count as int), lang@),
{
    let ghost views = model::items_view(items@).take(count as int);
    let wanted = to_lower_text(lang);
    let mut i: usize = 0;
    while i < count
        invariant
            i <= count <= items@.len(),
            wanted@ == text::lower_text(lang@),
            views == model::items_view(items@).take(count as int),
            forall|j: int| 0 <= j < i ==> !model::in_language(#[trigger] views[j], lang@),
        decreases count - i,
    {
        proof {
            model::lemma_items_view(items@);
            assert(views[i as int] == model::item_view(items@[i as int]));
        }
        if let Some(l) = items[i].lang() {
            if same_text(to_lower_text(l).as_str(), wanted.as_str()) {
                return true;
            }
        }
        i = i + 1;
    }
    assert(views.len() == count) by {
        model::lemma_items_view(items@);
    }
    false
}

/// A repeated language stays the first one whatever follows.
proof fn lemma_repeated_language(items: Seq<ItemView>, i: int)
    requires
        0 <= i <= items.len(),
        repeated_language(items.take(i)) is Some,
    ensures
        repeated_language(items) == repeated_language(items.take(i)),
    decreases items.len() - i,
{
    if i < items.len() {
        assert(items.take(i + 1).drop_last() =~= items.take(i));
        lemma_repeated_language(items, i + 1);
    } else {
        assert(items.take(i) =~= items);
    }
}

/// Rejects an `rdf:Alt` with two items sharing an `xml:lang`.
fn check_unique_langs(items: &Vec<XmpItem>) -> (r: Result<(), XmpError>)
    ensures
        match r {
            Ok(()) => repeated_language(model::items_view(items@)) is None,
            Err(e) => repeated_language(model::items_view(items@)) matches Some(lang) && e@
                == ErrorView::DuplicateLang(lang),
        },
{
    let ghost views = model::items_view(items@);
    proof {
        model::lemma_items_view(items@);
        assert(views.take(0).len() == 0);
    }
    let mut i: usize = 0;
    while i < items.len()
        invariant
            i <= items@.len() == views.len(),
            views == model::items_view(items@),
            repeated_language(views.take(i as int)) is None,
        decreases items@.len() - i,
    {
        proof {
            model::lemma_items_view(items@);
            assert(views[i as int] == model::item_view(items@[i as int]));
            assert(views.take(i + 1).drop_last() =~= views.take(i as int));
            assert(views.take(i + 1).last() == views[i as int]);
        }
        if let Some(lang) = items[i].lang() {
            if occurs_before(items, i, lang) {
                proof {
                    lemma_repeated_language(views, i + 1);
                }
                return Err(XmpError::DuplicateLang(lang.to_owned()));
            }
        }
        i = i + 1;
    }
    assert(views.take(views.len() as int) =~= views);
    Ok(())
}

} // verus!
