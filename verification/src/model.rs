//! The XMP data model: a graph of properties with simple, structured and array values, qualifiers
//! and language alternatives.
//!
//! The graph is data, so its fields are public. The accessors of [`XmpMeta`] keep the names of
//! top-level properties unique, the languages of an alternative array unique, and the default
//! language first; direct field mutation can bypass that.

use vstd::prelude::*;
use vstd::string::*;

use crate::error;
use crate::namespace::XML_NAMESPACE;
use crate::text;
use crate::text::{same_text, to_lower_text};

verus! {

/// A property graph.
#[derive(Debug, PartialEq, Eq)]
pub struct XmpMeta {
    /// Top-level properties.
    pub properties: Vec<XmpProperty>,
}

/// A property, a structure field or a qualifier.
#[derive(Debug, PartialEq, Eq)]
pub struct XmpProperty {
    /// Namespace URI of the name.
    pub namespace: String,
    /// Local name.
    pub name: String,
    /// Value.
    pub value: XmpValue,
    /// Qualifiers of the value.
    pub qualifiers: Vec<XmpProperty>,
}

/// A value.
#[derive(Debug, PartialEq, Eq)]
pub enum XmpValue {
    /// Text.
    Simple(String),
    /// A URI.
    Uri(String),
    /// A structure with named fields.
    Structured(Vec<XmpProperty>),
    /// An array.
    Array(XmpArray),
}

/// An array.
#[derive(Debug, PartialEq, Eq)]
pub enum XmpArray {
    /// An unordered array (`rdf:Bag`).
    Bag(Vec<XmpItem>),
    /// An ordered array (`rdf:Seq`).
    Sequence(Vec<XmpItem>),
    /// An array of alternatives (`rdf:Alt`).
    Alt(Vec<XmpItem>),
}

/// An array item.
#[derive(Debug, PartialEq, Eq)]
pub struct XmpItem {
    /// Value.
    pub value: XmpValue,
    /// Qualifiers of the value.
    pub qualifiers: Vec<XmpProperty>,
}

// ---------------------------------------------------------------------------------------------
// Views
// ---------------------------------------------------------------------------------------------

/// The kind of an array.
pub enum ArrayKind {
    /// See [`XmpArray::Bag`].
    Bag,
    /// See [`XmpArray::Sequence`].
    Sequence,
    /// See [`XmpArray::Alt`].
    Alt,
}

/// The mathematical form of an [`XmpProperty`].
pub struct PropertyView {
    /// See [`XmpProperty::namespace`].
    pub namespace: Seq<char>,
    /// See [`XmpProperty::name`].
    pub name: Seq<char>,
    /// See [`XmpProperty::value`].
    pub value: ValueView,
    /// See [`XmpProperty::qualifiers`].
    pub qualifiers: Seq<PropertyView>,
}

/// The mathematical form of an [`XmpValue`].
pub enum ValueView {
    /// See [`XmpValue::Simple`].
    Simple(Seq<char>),
    /// See [`XmpValue::Uri`].
    Uri(Seq<char>),
    /// See [`XmpValue::Structured`].
    Structured(Seq<PropertyView>),
    /// See [`XmpValue::Array`].
    Array(ArrayKind, Seq<ItemView>),
}

/// The mathematical form of an [`XmpItem`].
pub struct ItemView {
    /// See [`XmpItem::value`].
    pub value: ValueView,
    /// See [`XmpItem::qualifiers`].
    pub qualifiers: Seq<PropertyView>,
}

/// The mathematical form of a property.
pub open spec fn property_view(p: XmpProperty) -> PropertyView
    decreases p,
{
    PropertyView {
        namespace: p.namespace@,
        name: p.name@,
        value: value_view(p.value),
        qualifiers: properties_view(p.qualifiers@),
    }
}

/// The mathematical form of a list of properties.
pub open spec fn properties_view(s: Seq<XmpProperty>) -> Seq<PropertyView>
    decreases s,
{
    if s.len() == 0 {
        Seq::empty()
    } else {
        properties_view(s.drop_last()).push(property_view(s.last()))
    }
}

/// The mathematical form of a value.
pub open spec fn value_view(v: XmpValue) -> ValueView
    decreases v,
{
    match v {
        XmpValue::Simple(text) => ValueView::Simple(text@),
        XmpValue::Uri(uri) => ValueView::Uri(uri@),
        XmpValue::Structured(fields) => ValueView::Structured(properties_view(fields@)),
        XmpValue::Array(XmpArray::Bag(items)) => ValueView::Array(
            ArrayKind::Bag,
            items_view(items@),
        ),
        XmpValue::Array(XmpArray::Sequence(items)) => ValueView::Array(
            ArrayKind::Sequence,
            items_view(items@),
        ),
        XmpValue::Array(XmpArray::Alt(items)) => ValueView::Array(
            ArrayKind::Alt,
            items_view(items@),
        ),
    }
}

/// The mathematical form of an item.
pub open spec fn item_view(i: XmpItem) -> ItemView
    decreases i,
{
    ItemView { value: value_view(i.value), qualifiers: properties_view(i.qualifiers@) }
}

/// The mathematical form of a list of items.
pub open spec fn items_view(s: Seq<XmpItem>) -> Seq<ItemView>
    decreases s,
{
    if s.len() == 0 {
        Seq::empty()
    } else {
        items_view(s.drop_last()).push(item_view(s.last()))
    }
}

/// A list of properties has the views of its elements.
pub proof fn lemma_properties_view(s: Seq<XmpProperty>)
    ensures
        properties_view(s).len() == s.len(),
        forall|i: int|
            0 <= i < s.len() ==> #[trigger] properties_view(s)[i] == property_view(s[i]),
    decreases s.len(),
{
    if s.len() > 0 {
        lemma_properties_view(s.drop_last());
        assert forall|i: int| 0 <= i < s.len() implies #[trigger] properties_view(s)[i]
            == property_view(s[i]) by {
            if i < s.len() - 1 {
                assert(properties_view(s.drop_last())[i] == property_view(s.drop_last()[i]));
            }
        }
    }
}

/// A list of items has the views of its elements.
pub proof fn lemma_items_view(s: Seq<XmpItem>)
    ensures
        items_view(s).len() == s.len(),
        forall|i: int| 0 <= i < s.len() ==> #[trigger] items_view(s)[i] == item_view(s[i]),
    decreases s.len(),
{
    if s.len() > 0 {
        lemma_items_view(s.drop_last());
        assert forall|i: int| 0 <= i < s.len() implies #[trigger] items_view(s)[i] == item_view(
            s[i],
        ) by {
            if i < s.len() - 1 {
                assert(items_view(s.drop_last())[i] == item_view(s.drop_last()[i]));
            }
        }
    }
}

/// Appending to a list appends to its view.
pub proof fn lemma_properties_push(s: Seq<XmpProperty>, p: XmpProperty)
    ensures
        properties_view(s.push(p)) == properties_view(s).push(property_view(p)),
{
    assert(s.push(p).drop_last() =~= s);
}

/// Appending to a list appends to its view.
pub proof fn lemma_items_push(s: Seq<XmpItem>, i: XmpItem)
    ensures
        items_view(s.push(i)) == items_view(s).push(item_view(i)),
{
    assert(s.push(i).drop_last() =~= s);
}

impl View for XmpProperty {
    type V = PropertyView;

    open spec fn view(&self) -> PropertyView {
        property_view(*self)
    }
}

impl View for XmpValue {
    type V = ValueView;

    open spec fn view(&self) -> ValueView {
        value_view(*self)
    }
}

impl View for XmpItem {
    type V = ItemView;

    open spec fn view(&self) -> ItemView {
        item_view(*self)
    }
}

impl View for XmpMeta {
    type V = Seq<PropertyView>;

    open spec fn view(&self) -> Seq<PropertyView> {
        properties_view(self.properties@)
    }
}

// ---------------------------------------------------------------------------------------------
// Copies
// ---------------------------------------------------------------------------------------------

/// A copy of a property.
fn copy_property(p: &XmpProperty) -> (r: XmpProperty)
    ensures
        r@ == p@,
    decreases *p,
{
    XmpProperty {
        namespace: p.namespace.clone(),
        name: p.name.clone(),
        value: copy_value(&p.value),
        qualifiers: copy_properties(&p.qualifiers),
    }
}

/// A copy of a list of properties.
fn copy_properties(s: &Vec<XmpProperty>) -> (r: Vec<XmpProperty>)
    ensures
        properties_view(r@) == properties_view(s@),
    decreases *s,
{
    let mut r: Vec<XmpProperty> = Vec::new();
    let mut i: usize = 0;
    while i < s.len()
        invariant
            i <= s@.len(),
            properties_view(r@) == properties_view(s@.take(i as int)),
        decreases s@.len() - i,
    {
        let p = copy_property(&s[i]);
        proof {
            lemma_properties_push(r@, p);
            lemma_properties_push(s@.take(i as int), s@[i as int]);
            assert(s@.take(i + 1) =~= s@.take(i as int).push(s@[i as int]));
        }
        r.push(p);
        i = i + 1;
    }
    assert(s@.take(s@.len() as int) =~= s@);
    r
}

/// A copy of a value.
fn copy_value(v: &XmpValue) -> (r: XmpValue)
    ensures
        r@ == v@,
    decreases *v,
{
    match v {
        XmpValue::Simple(text) => XmpValue::Simple(text.clone()),
        XmpValue::Uri(uri) => XmpValue::Uri(uri.clone()),
        XmpValue::Structured(fields) => XmpValue::Structured(copy_properties(fields)),
        XmpValue::Array(XmpArray::Bag(items)) => XmpValue::Array(XmpArray::Bag(copy_items(items))),
        XmpValue::Array(XmpArray::Sequence(items)) => XmpValue::Array(
            XmpArray::Sequence(copy_items(items)),
        ),
        XmpValue::Array(XmpArray::Alt(items)) => XmpValue::Array(XmpArray::Alt(copy_items(items))),
    }
}

/// A copy of an item.
fn copy_item(item: &XmpItem) -> (r: XmpItem)
    ensures
        r@ == item@,
    decreases *item,
{
    XmpItem { value: copy_value(&item.value), qualifiers: copy_properties(&item.qualifiers) }
}

/// A copy of a list of items.
fn copy_items(s: &Vec<XmpItem>) -> (r: Vec<XmpItem>)
    ensures
        items_view(r@) == items_view(s@),
    decreases *s,
{
    let mut r: Vec<XmpItem> = Vec::new();
    let mut i: usize = 0;
    while i < s.len()
        invariant
            i <= s@.len(),
            items_view(r@) == items_view(s@.take(i as int)),
        decreases s@.len() - i,
    {
        let item = copy_item(&s[i]);
        proof {
            lemma_items_push(r@, item);
            lemma_items_push(s@.take(i as int), s@[i as int]);
            assert(s@.take(i + 1) =~= s@.take(i as int).push(s@[i as int]));
        }
        r.push(item);
        i = i + 1;
    }
    assert(s@.take(s@.len() as int) =~= s@);
    r
}

impl Clone for XmpProperty {
    fn clone(&self) -> (r: Self)
        ensures
            r@ == self@,
    {
        copy_property(self)
    }
}

impl Clone for XmpValue {
    fn clone(&self) -> (r: Self)
        ensures
            r@ == self@,
    {
        copy_value(self)
    }
}

impl Clone for XmpItem {
    fn clone(&self) -> (r: Self)
        ensures
            r@ == self@,
    {
        copy_item(self)
    }
}

impl Clone for XmpMeta {
    fn clone(&self) -> (r: Self)
        ensures
            r@ == self@,
    {
        XmpMeta { properties: copy_properties(&self.properties) }
    }
}

// ---------------------------------------------------------------------------------------------
// Equality
// ---------------------------------------------------------------------------------------------

/// Whether two properties are equal.
fn same_property(a: &XmpProperty, b: &XmpProperty) -> (r: bool)
    ensures
        r == (a@ == b@),
    decreases *a,
{
    same_text(a.namespace.as_str(), b.namespace.as_str()) && same_text(
        a.name.as_str(),
        b.name.as_str(),
    ) && same_value(&a.value, &b.value) && same_properties(&a.qualifiers, &b.qualifiers)
}

/// Whether two lists of properties are equal.
pub(crate) fn same_properties(a: &Vec<XmpProperty>, b: &Vec<XmpProperty>) -> (r: bool)
    ensures
        r == (properties_view(a@) == properties_view(b@)),
    decreases *a,
{
    proof {
        lemma_properties_view(a@);
        lemma_properties_view(b@);
    }
    if a.len() != b.len() {
        return false;
    }
    let mut i: usize = 0;
    while i < a.len()
        invariant
            i <= a@.len() == b@.len(),
            forall|j: int| 0 <= j < i ==> property_view(#[trigger] a@[j]) == property_view(b@[j]),
        decreases a@.len() - i,
    {
        if !same_property(&a[i], &b[i]) {
            proof {
                lemma_properties_view(a@);
                lemma_properties_view(b@);
                assert(properties_view(a@)[i as int] == property_view(a@[i as int]));
                assert(properties_view(b@)[i as int] == property_view(b@[i as int]));
            }
            return false;
        }
        i = i + 1;
    }
    assert(properties_view(a@) =~= properties_view(b@));
    true
}

/// Whether two values are equal.
fn same_value(a: &XmpValue, b: &XmpValue) -> (r: bool)
    ensures
        r == (a@ == b@),
    decreases *a,
{
    match (a, b) {
        (XmpValue::Simple(x), XmpValue::Simple(y)) => same_text(x.as_str(), y.as_str()),
        (XmpValue::Uri(x), XmpValue::Uri(y)) => same_text(x.as_str(), y.as_str()),
        (XmpValue::Structured(x), XmpValue::Structured(y)) => same_properties(x, y),
        (XmpValue::Array(XmpArray::Bag(x)), XmpValue::Array(XmpArray::Bag(y))) => same_items(x, y),
        (XmpValue::Array(XmpArray::Sequence(x)), XmpValue::Array(XmpArray::Sequence(y))) => {
            same_items(x, y)
        },
        (XmpValue::Array(XmpArray::Alt(x)), XmpValue::Array(XmpArray::Alt(y))) => same_items(x, y),
        _ => false,
    }
}

/// Whether two items are equal.
fn same_item(a: &XmpItem, b: &XmpItem) -> (r: bool)
    ensures
        r == (a@ == b@),
    decreases *a,
{
    same_value(&a.value, &b.value) && same_properties(&a.qualifiers, &b.qualifiers)
}

/// Whether two lists of items are equal.
fn same_items(a: &Vec<XmpItem>, b: &Vec<XmpItem>) -> (r: bool)
    ensures
        r == (items_view(a@) == items_view(b@)),
    decreases *a,
{
    proof {
        lemma_items_view(a@);
        lemma_items_view(b@);
    }
    if a.len() != b.len() {
        return false;
    }
    let mut i: usize = 0;
    while i < a.len()
        invariant
            i <= a@.len() == b@.len(),
            forall|j: int| 0 <= j < i ==> item_view(#[trigger] a@[j]) == item_view(b@[j]),
        decreases a@.len() - i,
    {
        if !same_item(&a[i], &b[i]) {
            proof {
                lemma_items_view(a@);
                lemma_items_view(b@);
                assert(items_view(a@)[i as int] == item_view(a@[i as int]));
                assert(items_view(b@)[i as int] == item_view(b@[i as int]));
            }
            return false;
        }
        i = i + 1;
    }
    assert(items_view(a@) =~= items_view(b@));
    true
}

// ---------------------------------------------------------------------------------------------
// Reading
// ---------------------------------------------------------------------------------------------

/// Whether a property has the given expanded name.
pub open spec fn is_named(p: PropertyView, namespace: Seq<char>, name: Seq<char>) -> bool {
    p.namespace == namespace && p.name == name
}

/// The index of the first property at or after `from` with the given expanded name.
pub open spec fn position_from(
    properties: Seq<PropertyView>,
    namespace: Seq<char>,
    name: Seq<char>,
    from: int,
) -> Option<int>
    decreases properties.len() - from,
{
    if from < 0 || from >= properties.len() {
        None
    } else if is_named(properties[from], namespace, name) {
        Some(from)
    } else {
        position_from(properties, namespace, name, from + 1)
    }
}

/// The index of the first property with the given expanded name.
pub open spec fn position(
    properties: Seq<PropertyView>,
    namespace: Seq<char>,
    name: Seq<char>,
) -> Option<int> {
    position_from(properties, namespace, name, 0)
}

/// The position is that of the first property with the name.
pub proof fn lemma_position_from(
    properties: Seq<PropertyView>,
    namespace: Seq<char>,
    name: Seq<char>,
    from: int,
)
    requires
        0 <= from,
    ensures
        match position_from(properties, namespace, name, from) {
            Some(i) => from <= i < properties.len() && is_named(properties[i], namespace, name)
                && forall|j: int|
                from <= j < i ==> !is_named(#[trigger] properties[j], namespace, name),
            None => forall|j: int|
                from <= j < properties.len() ==> !is_named(
                    #[trigger] properties[j],
                    namespace,
                    name,
                ),
        },
    decreases properties.len() - from,
{
    if from < properties.len() && !is_named(properties[from], namespace, name) {
        lemma_position_from(properties, namespace, name, from + 1);
    }
}

/// A list in which the property at `i` has the name and none before it has.
pub proof fn lemma_position_is(
    properties: Seq<PropertyView>,
    namespace: Seq<char>,
    name: Seq<char>,
    i: int,
)
    requires
        0 <= i < properties.len(),
        is_named(properties[i], namespace, name),
        forall|j: int| 0 <= j < i ==> !is_named(#[trigger] properties[j], namespace, name),
    ensures
        position(properties, namespace, name) == Some(i),
{
    lemma_position_from(properties, namespace, name, 0);
    if let Some(k) = position(properties, namespace, name) {
        if k < i {
            assert(!is_named(properties[k], namespace, name));
        } else if i < k {
            assert(!is_named(properties[i], namespace, name));
        }
    } else {
        assert(!is_named(properties[i], namespace, name));
    }
}

/// The text of a simple value.
pub open spec fn simple_text(value: ValueView) -> Option<Seq<char>> {
    match value {
        ValueView::Simple(text) => Some(text),
        _ => None,
    }
}

/// The language that qualifiers give: the text of the first `xml:lang` among them.
pub open spec fn language(qualifiers: Seq<PropertyView>) -> Option<Seq<char>> {
    match position(qualifiers, XML_NAMESPACE@, "lang"@) {
        Some(i) => simple_text(qualifiers[i].value),
        None => None,
    }
}

/// The index of the first property with the given expanded name.
fn find_property(properties: &Vec<XmpProperty>, namespace: &str, name: &str) -> (r: Option<usize>)
    ensures
        text::index_view(r) == position(properties_view(properties@), namespace@, name@),
        r matches Some(i) ==> i < properties@.len(),
{
    proof {
        lemma_properties_view(properties@);
    }
    let mut i: usize = 0;
    while i < properties.len()
        invariant
            i <= properties@.len() == properties_view(properties@).len(),
            position(properties_view(properties@), namespace@, name@) == position_from(
                properties_view(properties@),
                namespace@,
                name@,
                i as int,
            ),
        decreases properties@.len() - i,
    {
        proof {
            lemma_properties_view(properties@);
            assert(properties_view(properties@)[i as int] == property_view(properties@[i as int]));
        }
        let p = &properties[i];
        if same_text(p.namespace.as_str(), namespace) && same_text(p.name.as_str(), name) {
            return Some(i);
        }
        i = i + 1;
    }
    None
}

/// The text of a simple value.
fn text_of_value(value: &XmpValue) -> (r: Option<&str>)
    ensures
        error::option_view(r) == simple_text(value@),
{
    match value {
        XmpValue::Simple(text) => Some(text.as_str()),
        _ => None,
    }
}

/// The language that qualifiers give.
fn language_of(qualifiers: &Vec<XmpProperty>) -> (r: Option<&str>)
    ensures
        error::option_view(r) == language(properties_view(qualifiers@)),
{
    proof {
        lemma_properties_view(qualifiers@);
    }
    match find_property(qualifiers, XML_NAMESPACE, "lang") {
        Some(i) => {
            assert(properties_view(qualifiers@)[i as int] == property_view(qualifiers@[i as int]));
            text_of_value(&qualifiers[i].value)
        },
        None => None,
    }
}

impl XmpProperty {
    /// A property without qualifiers.
    #[must_use]
    pub fn new(namespace: &str, name: &str, value: XmpValue) -> (r: Self)
        ensures
            r@ == (PropertyView {
                namespace: namespace@,
                name: name@,
                value: value@,
                qualifiers: Seq::empty(),
            }),
    {
        XmpProperty {
            namespace: namespace.to_owned(),
            name: name.to_owned(),
            value,
            qualifiers: Vec::new(),
        }
    }

    /// The text of a simple value.
    #[must_use]
    pub fn text(&self) -> (r: Option<&str>)
        ensures
            error::option_view(r) == simple_text(self@.value),
    {
        text_of_value(&self.value)
    }

    /// The `xml:lang` qualifier.
    #[must_use]
    pub fn lang(&self) -> (r: Option<&str>)
        ensures
            error::option_view(r) == language(self@.qualifiers),
    {
        language_of(&self.qualifiers)
    }
}

impl XmpItem {
    /// The text of a simple value.
    #[must_use]
    pub fn text(&self) -> (r: Option<&str>)
        ensures
            error::option_view(r) == simple_text(self@.value),
    {
        text_of_value(&self.value)
    }

    /// The `xml:lang` qualifier.
    #[must_use]
    pub fn lang(&self) -> (r: Option<&str>)
        ensures
            error::option_view(r) == language(self@.qualifiers),
    {
        language_of(&self.qualifiers)
    }
}

/// Whether an item is in the given language; the case of ASCII letters does not matter.
pub open spec fn in_language(item: ItemView, lang: Seq<char>) -> bool {
    match language(item.qualifiers) {
        Some(l) => text::lower_text(l) == text::lower_text(lang),
        None => false,
    }
}

/// The index of the first item at or after `from` in the given language.
pub open spec fn language_position_from(
    items: Seq<ItemView>,
    lang: Seq<char>,
    from: int,
) -> Option<int>
    decreases items.len() - from,
{
    if from < 0 || from >= items.len() {
        None
    } else if in_language(items[from], lang) {
        Some(from)
    } else {
        language_position_from(items, lang, from + 1)
    }
}

/// The position is that of the first item in the language.
pub proof fn lemma_language_position_from(items: Seq<ItemView>, lang: Seq<char>, from: int)
    requires
        0 <= from,
    ensures
        match language_position_from(items, lang, from) {
            Some(i) => from <= i < items.len() && in_language(items[i], lang) && forall|j: int|
                from <= j < i ==> !in_language(#[trigger] items[j], lang),
            None => forall|j: int|
                from <= j < items.len() ==> !in_language(#[trigger] items[j], lang),
        },
    decreases items.len() - from,
{
    if from < items.len() && !in_language(items[from], lang) {
        lemma_language_position_from(items, lang, from + 1);
    }
}

/// The index of the first item in the given language.
fn find_language(items: &Vec<XmpItem>, lang: &str) -> (r: Option<usize>)
    ensures
        text::index_view(r) == language_position_from(items_view(items@), lang@, 0),
        r matches Some(i) ==> i < items@.len(),
{
    proof {
        lemma_items_view(items@);
    }
    let wanted = to_lower_text(lang);
    let mut i: usize = 0;
    while i < items.len()
        invariant
            i <= items@.len() == items_view(items@).len(),
            wanted@ == text::lower_text(lang@),
            language_position_from(items_view(items@), lang@, 0) == language_position_from(
                items_view(items@),
                lang@,
                i as int,
            ),
        decreases items@.len() - i,
    {
        proof {
            lemma_items_view(items@);
            assert(items_view(items@)[i as int] == item_view(items@[i as int]));
        }
        if let Some(l) = items[i].lang() {
            if same_text(to_lower_text(l).as_str(), wanted.as_str()) {
                return Some(i);
            }
        }
        i = i + 1;
    }
    None
}

/// The items of an array of alternatives.
pub open spec fn alternatives(value: ValueView) -> Option<Seq<ItemView>> {
    match value {
        ValueView::Array(ArrayKind::Alt, items) => Some(items),
        _ => None,
    }
}

/// The text of the alternative of a property in the given language.
pub open spec fn language_alternative(
    properties: Seq<PropertyView>,
    namespace: Seq<char>,
    name: Seq<char>,
    lang: Seq<char>,
) -> Option<Seq<char>> {
    match position(properties, namespace, name) {
        Some(i) => match alternatives(properties[i].value) {
            Some(items) => match language_position_from(items, lang, 0) {
                Some(k) => simple_text(items[k].value),
                None => None,
            },
            None => None,
        },
        None => None,
    }
}

impl XmpMeta {
    /// An empty graph.
    #[must_use]
    pub fn new() -> (r: Self)
        ensures
            r@ == Seq::<PropertyView>::empty(),
    {
        XmpMeta { properties: Vec::new() }
    }

    /// The top-level property with the given expanded name.
    #[must_use]
    pub fn get(&self, namespace: &str, name: &str) -> (r: Option<&XmpProperty>)
        ensures
            error::option_view(r) == (match position(self@, namespace@, name@) {
                Some(i) => Some(self@[i]),
                None => None,
            }),
    {
        proof {
            lemma_properties_view(self.properties@);
        }
        match find_property(&self.properties, namespace, name) {
            Some(i) => {
                assert(self@[i as int] == property_view(self.properties@[i as int]));
                Some(&self.properties[i])
            },
            None => None,
        }
    }

    /// The text of the simple top-level property with the given expanded name.
    #[must_use]
    pub fn get_text(&self, namespace: &str, name: &str) -> (r: Option<&str>)
        ensures
            error::option_view(r) == (match position(self@, namespace@, name@) {
                Some(i) => simple_text(self@[i].value),
                None => None,
            }),
    {
        match self.get(namespace, name) {
            Some(p) => p.text(),
            None => None,
        }
    }

    /// The text of the language alternative of the top-level property with the given expanded
    /// name.
    #[must_use]
    pub fn get_lang_alt(&self, namespace: &str, name: &str, lang: &str) -> (r: Option<&str>)
        ensures
            error::option_view(r) == language_alternative(self@, namespace@, name@, lang@),
    {
        match self.get(namespace, name) {
            Some(p) => match &p.value {
                XmpValue::Array(XmpArray::Alt(items)) => {
                    proof {
                        lemma_items_view(items@);
                    }
                    match find_language(items, lang) {
                        Some(k) => {
                            assert(items_view(items@)[k as int] == item_view(items@[k as int]));
                            items[k].text()
                        },
                        None => None,
                    }
                },
                _ => None,
            },
            None => None,
        }
    }
}

// ---------------------------------------------------------------------------------------------
// Changing
// ---------------------------------------------------------------------------------------------

/// The graph with a property inserted, in the place of the one with the same name if there is one.
pub open spec fn inserted(properties: Seq<PropertyView>, p: PropertyView) -> Seq<PropertyView> {
    match position(properties, p.namespace, p.name) {
        Some(i) => properties.update(i, p),
        None => properties.push(p),
    }
}

/// The graph without the property with the given name.
pub open spec fn removed(
    properties: Seq<PropertyView>,
    namespace: Seq<char>,
    name: Seq<char>,
) -> Seq<PropertyView> {
    match position(properties, namespace, name) {
        Some(i) => properties.remove(i),
        None => properties,
    }
}

/// The qualifier that gives a language.
pub open spec fn language_qualifier(lang: Seq<char>) -> PropertyView {
    PropertyView {
        namespace: XML_NAMESPACE@,
        name: "lang"@,
        value: ValueView::Simple(lang),
        qualifiers: Seq::empty(),
    }
}

/// The alternatives with the text for a language set: the item in the language gets the text, or a
/// new item is added, at the front for the default language and at the end for another.
pub open spec fn alternatives_set(
    items: Seq<ItemView>,
    lang: Seq<char>,
    text: Seq<char>,
) -> Seq<ItemView> {
    let value = ValueView::Simple(text);
    let item = ItemView { value, qualifiers: seq![language_qualifier(lang)] };
    match language_position_from(items, lang, 0) {
        Some(k) => items.update(k, ItemView { value, qualifiers: items[k].qualifiers }),
        None => if text::lower_text(lang) == "x-default"@ {
            items.insert(0, item)
        } else {
            items.push(item)
        },
    }
}

/// The graph with the text of a language alternative set.
pub open spec fn language_alternative_set(
    properties: Seq<PropertyView>,
    namespace: Seq<char>,
    name: Seq<char>,
    lang: Seq<char>,
    text: Seq<char>,
) -> Seq<PropertyView> {
    let place = position(properties, namespace, name);
    let known = match place {
        Some(i) => alternatives(properties[i].value),
        None => None,
    };
    inserted(
        properties,
        PropertyView {
            namespace,
            name,
            value: ValueView::Array(
                ArrayKind::Alt,
                alternatives_set(
                    match known {
                        Some(items) => items,
                        None => Seq::empty(),
                    },
                    lang,
                    text,
                ),
            ),
            qualifiers: match known {
                Some(_) => properties[place->Some_0].qualifiers,
                None => Seq::empty(),
            },
        },
    )
}

/// Replacing in a list replaces in its view.
proof fn lemma_properties_update(s: Seq<XmpProperty>, i: int, p: XmpProperty)
    requires
        0 <= i < s.len(),
    ensures
        properties_view(s.update(i, p)) == properties_view(s).update(i, property_view(p)),
{
    lemma_properties_view(s);
    lemma_properties_view(s.update(i, p));
    assert(properties_view(s.update(i, p)) =~= properties_view(s).update(i, property_view(p)));
}

/// Removing from a list removes from its view.
proof fn lemma_properties_remove(s: Seq<XmpProperty>, i: int)
    requires
        0 <= i < s.len(),
    ensures
        properties_view(s.remove(i)) == properties_view(s).remove(i),
{
    lemma_properties_view(s);
    lemma_properties_view(s.remove(i));
    assert forall|j: int| 0 <= j < s.len() - 1 implies #[trigger] properties_view(s.remove(i))[j]
        == properties_view(s).remove(i)[j] by {
        if j < i {
            assert(s.remove(i)[j] == s[j]);
            assert(properties_view(s)[j] == property_view(s[j]));
        } else {
            assert(s.remove(i)[j] == s[j + 1]);
            assert(properties_view(s)[j + 1] == property_view(s[j + 1]));
        }
    }
    assert(properties_view(s.remove(i)) =~= properties_view(s).remove(i));
}

/// Replacing in a list replaces in its view.
proof fn lemma_items_update(s: Seq<XmpItem>, i: int, item: XmpItem)
    requires
        0 <= i < s.len(),
    ensures
        items_view(s.update(i, item)) == items_view(s).update(i, item_view(item)),
{
    lemma_items_view(s);
    lemma_items_view(s.update(i, item));
    assert(items_view(s.update(i, item)) =~= items_view(s).update(i, item_view(item)));
}

/// Inserting into a list inserts into its view.
proof fn lemma_items_insert(s: Seq<XmpItem>, item: XmpItem)
    ensures
        items_view(s.insert(0, item)) == items_view(s).insert(0, item_view(item)),
{
    lemma_items_view(s);
    lemma_items_view(s.insert(0, item));
    assert forall|j: int| 0 <= j < s.len() + 1 implies #[trigger] items_view(s.insert(0, item))[j]
        == items_view(s).insert(0, item_view(item))[j] by {
        if j > 0 {
            assert(s.insert(0, item)[j] == s[j - 1]);
            assert(items_view(s)[j - 1] == item_view(s[j - 1]));
        }
    }
    assert(items_view(s.insert(0, item)) =~= items_view(s).insert(0, item_view(item)));
}

impl XmpMeta {
    /// Inserts a top-level property, in the place of the one with the same expanded name if there
    /// is one.
    pub fn set(&mut self, property: XmpProperty)
        ensures
            final(self)@ == inserted(old(self)@, property@),
    {
        match find_property(
            &self.properties,
            property.namespace.as_str(),
            property.name.as_str(),
        ) {
            Some(i) => {
                proof {
                    lemma_properties_update(self.properties@, i as int, property);
                }
                self.properties.set(i, property);
            },
            None => {
                proof {
                    lemma_properties_push(self.properties@, property);
                }
                self.properties.push(property);
            },
        }
    }

    /// Removes and returns the top-level property with the given expanded name.
    pub fn remove(&mut self, namespace: &str, name: &str) -> (r: Option<XmpProperty>)
        ensures
            final(self)@ == removed(old(self)@, namespace@, name@),
            error::option_view(r) == (match position(old(self)@, namespace@, name@) {
                Some(i) => Some(old(self)@[i]),
                None => None,
            }),
    {
        proof {
            lemma_properties_view(self.properties@);
        }
        match find_property(&self.properties, namespace, name) {
            Some(i) => {
                proof {
                    lemma_properties_remove(self.properties@, i as int);
                    assert(self@[i as int] == property_view(self.properties@[i as int]));
                }
                Some(self.properties.remove(i))
            },
            None => None,
        }
    }

    /// Sets a simple top-level property.
    pub fn set_text(&mut self, namespace: &str, name: &str, text: &str)
        ensures
            final(self)@ == inserted(
                old(self)@,
                PropertyView {
                    namespace: namespace@,
                    name: name@,
                    value: ValueView::Simple(text@),
                    qualifiers: Seq::empty(),
                },
            ),
    {
        self.set(XmpProperty::new(namespace, name, XmpValue::Simple(text.to_owned())));
    }

    /// Sets the text of a language alternative of a top-level property. The default language
    /// (`x-default`) comes first.
    pub fn set_lang_alt(&mut self, namespace: &str, name: &str, lang: &str, text: &str)
        ensures
            final(self)@ == language_alternative_set(
                old(self)@,
                namespace@,
                name@,
                lang@,
                text@,
            ),
    {
        let (items, qualifiers) = match self.get(namespace, name) {
            Some(p) => match &p.value {
                XmpValue::Array(XmpArray::Alt(items)) => (
                    copy_items(items),
                    copy_properties(&p.qualifiers),
                ),
                _ => (Vec::new(), Vec::new()),
            },
            None => (Vec::new(), Vec::new()),
        };
        let items = set_alternative(items, lang, text);
        self.set(
            XmpProperty {
                namespace: namespace.to_owned(),
                name: name.to_owned(),
                value: XmpValue::Array(XmpArray::Alt(items)),
                qualifiers,
            },
        );
    }
}

/// The alternatives with the text for a language set.
fn set_alternative(items: Vec<XmpItem>, lang: &str, text: &str) -> (r: Vec<XmpItem>)
    ensures
        items_view(r@) == alternatives_set(items_view(items@), lang@, text@),
{
    let mut items = items;
    proof {
        lemma_items_view(items@);
    }
    match find_language(&items, lang) {
        Some(k) => {
            let item = XmpItem {
                value: XmpValue::Simple(text.to_owned()),
                qualifiers: copy_properties(&items[k].qualifiers),
            };
            proof {
                assert(items_view(items@)[k as int] == item_view(items@[k as int]));
                lemma_items_update(items@, k as int, item);
            }
            items.set(k, item);
        },
        None => {
            let mut qualifiers: Vec<XmpProperty> = Vec::new();
            let qualifier = XmpProperty::new(
                XML_NAMESPACE,
                "lang",
                XmpValue::Simple(lang.to_owned()),
            );
            proof {
                lemma_properties_push(qualifiers@, qualifier);
            }
            qualifiers.push(qualifier);
            let item = XmpItem { value: XmpValue::Simple(text.to_owned()), qualifiers };
            assert(item@.qualifiers =~= seq![language_qualifier(lang@)]);
            if same_text(to_lower_text(lang).as_str(), "x-default") {
                proof {
                    lemma_items_insert(items@, item);
                }
                items.insert(0, item);
            } else {
                proof {
                    lemma_items_push(items@, item);
                }
                items.push(item);
            }
        },
    }
    items
}

// ---------------------------------------------------------------------------------------------
// Laws
// ---------------------------------------------------------------------------------------------

/// Whether no two properties share an expanded name.
pub open spec fn unique_names(properties: Seq<PropertyView>) -> bool {
    forall|i: int, j: int|
        0 <= i < j < properties.len() ==> !is_named(
            #[trigger] properties[j],
            (#[trigger] properties[i]).namespace,
            properties[i].name,
        )
}

/// Whether no two items share a language.
pub open spec fn unique_languages(items: Seq<ItemView>) -> bool {
    forall|i: int, j: int|
        #![trigger items[i], items[j]]
        0 <= i < j < items.len() ==> (match language(items[i].qualifiers) {
            Some(lang) => !in_language(items[j], lang),
            None => true,
        })
}

/// Whether the default language is that of the first item or of none.
pub open spec fn default_language_first(items: Seq<ItemView>) -> bool {
    forall|i: int| 0 < i < items.len() ==> !in_language(#[trigger] items[i], "x-default"@)
}

/// Inserting and removing keep the names unique.
pub proof fn law_names_stay_unique(
    properties: Seq<PropertyView>,
    p: PropertyView,
    namespace: Seq<char>,
    name: Seq<char>,
)
    requires
        unique_names(properties),
    ensures
        unique_names(inserted(properties, p)),
        unique_names(removed(properties, namespace, name)),
{
    lemma_position_from(properties, p.namespace, p.name, 0);
    lemma_position_from(properties, namespace, name, 0);
    let after = inserted(properties, p);
    assert forall|i: int, j: int| 0 <= i < j < after.len() implies !is_named(
        #[trigger] after[j],
        (#[trigger] after[i]).namespace,
        after[i].name,
    ) by {
        match position(properties, p.namespace, p.name) {
            Some(k) => {
                assert(properties[i].namespace == properties[i].namespace);
                assert(properties[j].name == properties[j].name);
                if i != k && j != k {
                    assert(after[i] == properties[i] && after[j] == properties[j]);
                }
            },
            None => {
                assert(after[i] == properties[i]);
                if j < properties.len() {
                    assert(after[j] == properties[j]);
                }
            },
        }
    }
    let without = removed(properties, namespace, name);
    if let Some(k) = position(properties, namespace, name) {
        assert forall|i: int, j: int| 0 <= i < j < without.len() implies !is_named(
            #[trigger] without[j],
            (#[trigger] without[i]).namespace,
            without[i].name,
        ) by {
            let before_i = if i < k {
                i
            } else {
                i + 1
            };
            let before_j = if j < k {
                j
            } else {
                j + 1
            };
            assert(without[i] == properties[before_i]);
            assert(without[j] == properties[before_j]);
        }
    }
}

/// What was inserted is found under its name, and every other name finds what it found before.
pub proof fn law_get_after_set(
    properties: Seq<PropertyView>,
    p: PropertyView,
    namespace: Seq<char>,
    name: Seq<char>,
)
    ensures
        ({
            let after = inserted(properties, p);
            &&& position(after, p.namespace, p.name) matches Some(i) && after[i] == p
            &&& !is_named(p, namespace, name) ==> (match position(properties, namespace, name) {
                Some(i) => position(after, namespace, name) == Some(i) && after[i]
                    == properties[i],
                None => position(after, namespace, name) is None,
            })
        }),
{
    let after = inserted(properties, p);
    lemma_position_from(properties, p.namespace, p.name, 0);
    lemma_position_from(properties, namespace, name, 0);
    let place = match position(properties, p.namespace, p.name) {
        Some(i) => i,
        None => properties.len() as int,
    };
    assert forall|j: int| 0 <= j < place implies !is_named(
        #[trigger] after[j],
        p.namespace,
        p.name,
    ) by {
        assert(after[j] == properties[j]);
    }
    lemma_position_is(after, p.namespace, p.name, place);
    if !is_named(p, namespace, name) {
        match position(properties, namespace, name) {
            Some(i) => {
                assert forall|j: int| 0 <= j < i implies !is_named(
                    #[trigger] after[j],
                    namespace,
                    name,
                ) by {
                    assert(!is_named(properties[j], namespace, name));
                }
                lemma_position_is(after, namespace, name, i);
            },
            None => {
                lemma_position_from(after, namespace, name, 0);
                if let Some(i) = position(after, namespace, name) {
                    if i < properties.len() && i != place {
                        assert(after[i] == properties[i]);
                    }
                }
            },
        }
    }
}

/// In a graph with unique names, what was removed is not found again, and every other name finds
/// the property it found before.
pub proof fn law_get_after_remove(
    properties: Seq<PropertyView>,
    namespace: Seq<char>,
    name: Seq<char>,
    other_namespace: Seq<char>,
    other_name: Seq<char>,
)
    requires
        unique_names(properties),
    ensures
        ({
            let after = removed(properties, namespace, name);
            &&& position(after, namespace, name) is None
            &&& (other_namespace != namespace || other_name != name) ==> (match position(
                properties,
                other_namespace,
                other_name,
            ) {
                Some(i) => position(after, other_namespace, other_name) matches Some(k) && after[k]
                    == properties[i],
                None => position(after, other_namespace, other_name) is None,
            })
        }),
{
    let after = removed(properties, namespace, name);
    lemma_position_from(properties, namespace, name, 0);
    lemma_position_from(properties, other_namespace, other_name, 0);
    lemma_position_from(after, namespace, name, 0);
    lemma_position_from(after, other_namespace, other_name, 0);
    if let Some(k) = position(properties, namespace, name) {
        assert forall|j: int| 0 <= j < after.len() implies #[trigger] after[j] == properties[if j
            < k {
            j
        } else {
            j + 1
        }] by {}
        if let Some(j) = position(after, namespace, name) {
            let before = if j < k {
                j
            } else {
                j + 1
            };
            assert(after[j] == properties[before]);
            assert(properties[k].name == properties[before].name);
        }
        if other_namespace != namespace || other_name != name {
            match position(properties, other_namespace, other_name) {
                Some(i) => {
                    let place = if i < k {
                        i
                    } else {
                        i - 1
                    };
                    assert(after[place] == properties[i]);
                    assert forall|j: int| 0 <= j < place implies !is_named(
                        #[trigger] after[j],
                        other_namespace,
                        other_name,
                    ) by {
                        let before = if j < k {
                            j
                        } else {
                            j + 1
                        };
                        assert(!is_named(properties[before], other_namespace, other_name));
                    }
                    lemma_position_is(after, other_namespace, other_name, place);
                },
                None => {
                    if let Some(j) = position(after, other_namespace, other_name) {
                        let before = if j < k {
                            j
                        } else {
                            j + 1
                        };
                        assert(!is_named(properties[before], other_namespace, other_name));
                    }
                },
            }
        }
    }
}

/// The item that is added for a language is in that language and in no other.
proof fn lemma_new_item_language(lang: Seq<char>, value: ValueView)
    ensures
        language(seq![language_qualifier(lang)]) == Some(lang),
{
    let qualifiers = seq![language_qualifier(lang)];
    assert(is_named(qualifiers[0], XML_NAMESPACE@, "lang"@));
    assert(position(qualifiers, XML_NAMESPACE@, "lang"@) == Some(0int));
}

/// The name of the default language is in lower case.
proof fn lemma_default_is_lower()
    ensures
        text::lower_text("x-default"@) == "x-default"@,
{
    reveal_strlit("x-default");
    assert(text::lower_text("x-default"@) =~= "x-default"@);
}

/// Setting an alternative keeps the languages unique and the default language first.
pub proof fn law_alternatives_stay_canonical(
    items: Seq<ItemView>,
    lang: Seq<char>,
    text: Seq<char>,
)
    requires
        unique_languages(items),
        default_language_first(items),
    ensures
        unique_languages(alternatives_set(items, lang, text)),
        default_language_first(alternatives_set(items, lang, text)),
{
    let after = alternatives_set(items, lang, text);
    lemma_new_item_language(lang, ValueView::Simple(text));
    lemma_default_is_lower();
    lemma_language_position_from(items, lang, 0);
    match language_position_from(items, lang, 0) {
        Some(k) => {
            assert forall|i: int| 0 <= i < after.len() implies (#[trigger] after[i]).qualifiers
                == items[i].qualifiers by {}
            assert forall|i: int, j: int|
                #![trigger after[i], after[j]]
                0 <= i < j < after.len() implies (match language(after[i].qualifiers) {
                Some(l) => !in_language(after[j], l),
                None => true,
            }) by {
                assert(after[i].qualifiers == items[i].qualifiers);
                assert(after[j].qualifiers == items[j].qualifiers);
            }
            assert forall|i: int| 0 < i < after.len() implies !in_language(
                #[trigger] after[i],
                "x-default"@,
            ) by {
                assert(!in_language(items[i], "x-default"@));
            }
        },
        None => {
            let front = text::lower_text(lang) == "x-default"@;
            assert forall|i: int, j: int|
                #![trigger after[i], after[j]]
                0 <= i < j < after.len() implies (match language(after[i].qualifiers) {
                Some(l) => !in_language(after[j], l),
                None => true,
            }) by {
                if front {
                    assert(after[j] == items[j - 1]);
                    assert(!in_language(items[j - 1], lang));
                    if i > 0 {
                        assert(after[i] == items[i - 1]);
                    }
                } else {
                    assert(after[i] == items[i]);
                    assert(!in_language(items[i], lang));
                    if j < items.len() {
                        assert(after[j] == items[j]);
                    }
                }
            }
            assert forall|i: int| 0 < i < after.len() implies !in_language(
                #[trigger] after[i],
                "x-default"@,
            ) by {
                if front {
                    assert(after[i] == items[i - 1]);
                    assert(!in_language(items[i - 1], lang));
                } else if i < items.len() {
                    assert(after[i] == items[i]);
                    assert(!in_language(items[i], "x-default"@));
                }
            }
        },
    }
}

/// The text that was set for a language is the one that is read for it.
pub proof fn law_get_lang_alt_after_set(
    properties: Seq<PropertyView>,
    namespace: Seq<char>,
    name: Seq<char>,
    lang: Seq<char>,
    text: Seq<char>,
)
    ensures
        language_alternative(
            language_alternative_set(properties, namespace, name, lang, text),
            namespace,
            name,
            lang,
        ) == Some(text),
{
    let place = position(properties, namespace, name);
    let known = match place {
        Some(i) => alternatives(properties[i].value),
        None => None,
    };
    let items = match known {
        Some(items) => items,
        None => Seq::empty(),
    };
    let new_items = alternatives_set(items, lang, text);
    let p = PropertyView {
        namespace,
        name,
        value: ValueView::Array(ArrayKind::Alt, new_items),
        qualifiers: match known {
            Some(_) => properties[place->Some_0].qualifiers,
            None => Seq::empty(),
        },
    };
    law_get_after_set(properties, p, namespace, name);
    lemma_new_item_language(lang, ValueView::Simple(text));
    lemma_language_position_from(items, lang, 0);
    lemma_language_position_from(new_items, lang, 0);
    let k = match language_position_from(items, lang, 0) {
        Some(k) => k,
        None => if text::lower_text(lang) == "x-default"@ {
            0
        } else {
            items.len() as int
        },
    };
    assert(in_language(new_items[k], lang));
    assert(new_items[k].value == ValueView::Simple(text));
    if let Some(found) = language_position_from(new_items, lang, 0) {
        if found < k {
            assert(new_items[found] == items[found]);
        }
    }
}

/// Setting a property replaces the first with its name, in its place, or adds one behind all the
/// others where none has it. Every other property stays where it is.
pub proof fn law_setting_keeps_the_other_properties(
    properties: Seq<PropertyView>,
    p: PropertyView,
)
    ensures
        ({
            let after = inserted(properties, p);
            if forall|i: int|
                0 <= i < properties.len() ==> (#[trigger] properties[i]).namespace != p.namespace
                    || properties[i].name != p.name {
                after == properties.push(p)
            } else {
                exists|k: int|
                    {
                        &&& 0 <= k < properties.len()
                        &&& (#[trigger] properties[k]).namespace == p.namespace
                        &&& properties[k].name == p.name
                        &&& after.len() == properties.len()
                        &&& after[k] == p
                        &&& forall|i: int|
                            0 <= i < properties.len() && i != k ==> #[trigger] after[i]
                                == properties[i]
                        &&& forall|i: int|
                            0 <= i < k ==> (#[trigger] properties[i]).namespace != p.namespace
                                || properties[i].name != p.name
                    }
            }
        }),
{
    lemma_position_from(properties, p.namespace, p.name, 0);
    match position(properties, p.namespace, p.name) {
        Some(k) => {
            assert(properties[k].namespace == p.namespace);
            assert forall|i: int| 0 <= i < k implies (#[trigger] properties[i]).namespace
                != p.namespace || properties[i].name != p.name by {
                assert(!is_named(properties[i], p.namespace, p.name));
            }
        },
        None => {
            assert forall|i: int| 0 <= i < properties.len() implies (
            #[trigger] properties[i]).namespace != p.namespace || properties[i].name != p.name by {
                assert(!is_named(properties[i], p.namespace, p.name));
            }
        },
    }
}

/// Removing a property takes out the first with the name and nothing else; where none has it,
/// nothing changes.
pub proof fn law_removing_keeps_the_other_properties(
    properties: Seq<PropertyView>,
    namespace: Seq<char>,
    name: Seq<char>,
)
    ensures
        ({
            let after = removed(properties, namespace, name);
            if forall|i: int|
                0 <= i < properties.len() ==> (#[trigger] properties[i]).namespace != namespace
                    || properties[i].name != name {
                after == properties
            } else {
                exists|k: int|
                    {
                        &&& 0 <= k < properties.len()
                        &&& (#[trigger] properties[k]).namespace == namespace
                        &&& properties[k].name == name
                        &&& properties == after.take(k) + seq![properties[k]] + after.skip(k)
                        &&& forall|i: int|
                            0 <= i < k ==> (#[trigger] properties[i]).namespace != namespace
                                || properties[i].name != name
                    }
            }
        }),
{
    lemma_position_from(properties, namespace, name, 0);
    match position(properties, namespace, name) {
        Some(k) => {
            let after = removed(properties, namespace, name);
            assert(properties[k].namespace == namespace);
            assert(properties =~= after.take(k) + seq![properties[k]] + after.skip(k));
            assert forall|i: int| 0 <= i < k implies (#[trigger] properties[i]).namespace
                != namespace || properties[i].name != name by {
                assert(!is_named(properties[i], namespace, name));
            }
        },
        None => {
            assert forall|i: int| 0 <= i < properties.len() implies (
            #[trigger] properties[i]).namespace != namespace || properties[i].name != name by {
                assert(!is_named(properties[i], namespace, name));
            }
        },
    }
}

/// A property is found by its namespace and its name: the first that has both.
pub proof fn law_properties_are_found_by_name(
    properties: Seq<PropertyView>,
    namespace: Seq<char>,
    name: Seq<char>,
)
    ensures
        match position(properties, namespace, name) {
            Some(k) => {
                &&& 0 <= k < properties.len()
                &&& properties[k].namespace == namespace
                &&& properties[k].name == name
                &&& forall|i: int|
                    0 <= i < k ==> (#[trigger] properties[i]).namespace != namespace
                        || properties[i].name != name
            },
            None => forall|i: int|
                0 <= i < properties.len() ==> (#[trigger] properties[i]).namespace != namespace
                    || properties[i].name != name,
        },
{
    lemma_position_from(properties, namespace, name, 0);
    match position(properties, namespace, name) {
        Some(k) => {
            assert forall|i: int| 0 <= i < k implies (#[trigger] properties[i]).namespace
                != namespace || properties[i].name != name by {
                assert(!is_named(properties[i], namespace, name));
            }
        },
        None => {
            assert forall|i: int| 0 <= i < properties.len() implies (
            #[trigger] properties[i]).namespace != namespace || properties[i].name != name by {
                assert(!is_named(properties[i], namespace, name));
            }
        },
    }
}

/// Setting the text for a language changes the text of the first alternative in it, which keeps its
/// qualifiers, or adds an alternative with that language: the default language before the others,
/// and another behind them. Every other alternative stays as it is, in its order.
pub proof fn law_setting_a_language_keeps_the_others(
    items: Seq<ItemView>,
    lang: Seq<char>,
    text: Seq<char>,
)
    ensures
        ({
            let after = alternatives_set(items, lang, text);
            let item = ItemView {
                value: ValueView::Simple(text),
                qualifiers: seq![
                    PropertyView {
                        namespace: XML_NAMESPACE@,
                        name: "lang"@,
                        value: ValueView::Simple(lang),
                        qualifiers: Seq::empty(),
                    },
                ],
            };
            if exists|k: int| 0 <= k < items.len() && in_language(#[trigger] items[k], lang) {
                exists|k: int|
                    {
                        &&& 0 <= k < items.len()
                        &&& in_language(#[trigger] items[k], lang)
                        &&& after.len() == items.len()
                        &&& after[k].value == ValueView::Simple(text)
                        &&& after[k].qualifiers == items[k].qualifiers
                        &&& forall|i: int|
                            0 <= i < items.len() && i != k ==> #[trigger] after[i] == items[i]
                        &&& forall|i: int| 0 <= i < k ==> !in_language(#[trigger] items[i], lang)
                    }
            } else if text::lower_text(lang) == "x-default"@ {
                after == seq![item] + items
            } else {
                after == items + seq![item]
            }
        }),
{
    let after = alternatives_set(items, lang, text);
    let item = ItemView {
        value: ValueView::Simple(text),
        qualifiers: seq![
            PropertyView {
                namespace: XML_NAMESPACE@,
                name: "lang"@,
                value: ValueView::Simple(lang),
                qualifiers: Seq::empty(),
            },
        ],
    };
    lemma_language_position_from(items, lang, 0);
    match language_position_from(items, lang, 0) {
        Some(k) => {
            assert(in_language(items[k], lang));
        },
        None => {
            assert(forall|k: int| 0 <= k < items.len() ==> !in_language(#[trigger] items[k], lang));
            assert(seq![item] + items =~= items.insert(0, item));
            assert(items + seq![item] =~= items.push(item));
        },
    }
}

/// Setting a language alternative is setting a property: the one with the name keeps its qualifiers
/// and its other alternatives where it is an array of alternatives, and becomes one where it is not.
pub proof fn law_setting_a_language_sets_the_property(
    properties: Seq<PropertyView>,
    namespace: Seq<char>,
    name: Seq<char>,
    lang: Seq<char>,
    text: Seq<char>,
)
    ensures
        ({
            let after = language_alternative_set(properties, namespace, name, lang, text);
            let k = position(after, namespace, name);
            &&& k matches Some(k) && after[k].value matches ValueView::Array(ArrayKind::Alt, items)
                && after == inserted(properties, after[k]) && match position(
                properties,
                namespace,
                name,
            ) {
                Some(i) => match properties[i].value {
                    ValueView::Array(ArrayKind::Alt, before) => items == alternatives_set(
                        before,
                        lang,
                        text,
                    ) && after[k].qualifiers == properties[i].qualifiers,
                    _ => items.len() == 1 && after[k].qualifiers.len() == 0,
                },
                None => items.len() == 1 && after[k].qualifiers.len() == 0,
            }
        }),
{
    let place = position(properties, namespace, name);
    let known = match place {
        Some(i) => alternatives(properties[i].value),
        None => None,
    };
    let before = match known {
        Some(items) => items,
        None => Seq::empty(),
    };
    let p = PropertyView {
        namespace,
        name,
        value: ValueView::Array(ArrayKind::Alt, alternatives_set(before, lang, text)),
        qualifiers: match known {
            Some(_) => properties[place->Some_0].qualifiers,
            None => Seq::empty(),
        },
    };
    law_get_after_set(properties, p, namespace, name);
    if known is None {
        assert(language_position_from(before, lang, 0) is None);
    }
}

/// Whether an item is qualified with a language, in whatever case: the first of its `xml:lang`
/// qualifiers is a text that is that language.
pub open spec fn speaks(item: ItemView, lang: Seq<char>) -> bool {
    exists|q: int|
        {
            &&& 0 <= q < item.qualifiers.len()
            &&& (#[trigger] item.qualifiers[q]).namespace == XML_NAMESPACE@
            &&& item.qualifiers[q].name == "lang"@
            &&& (item.qualifiers[q].value matches ValueView::Simple(l) && text::lower_text(l)
                == text::lower_text(lang))
            &&& forall|p: int|
                0 <= p < q ==> (#[trigger] item.qualifiers[p]).namespace != XML_NAMESPACE@
                    || item.qualifiers[p].name != "lang"@
        }
}

/// An item is in a language just where its first `xml:lang` says so.
pub proof fn law_languages_are_qualifiers(item: ItemView, lang: Seq<char>)
    ensures
        in_language(item, lang) == speaks(item, lang),
{
    lemma_position_from(item.qualifiers, XML_NAMESPACE@, "lang"@, 0);
    if speaks(item, lang) {
        let q = choose|q: int|
            {
                &&& 0 <= q < item.qualifiers.len()
                &&& (#[trigger] item.qualifiers[q]).namespace == XML_NAMESPACE@
                &&& item.qualifiers[q].name == "lang"@
                &&& (item.qualifiers[q].value matches ValueView::Simple(l) && text::lower_text(l)
                    == text::lower_text(lang))
                &&& forall|p: int|
                    0 <= p < q ==> (#[trigger] item.qualifiers[p]).namespace != XML_NAMESPACE@
                        || item.qualifiers[p].name != "lang"@
            };
        assert(is_named(item.qualifiers[q], XML_NAMESPACE@, "lang"@));
        let k = position(item.qualifiers, XML_NAMESPACE@, "lang"@)->Some_0;
        assert(k == q) by {
            assert(item.qualifiers[k].namespace == XML_NAMESPACE@);
            if q < k {
                assert(!is_named(item.qualifiers[q], XML_NAMESPACE@, "lang"@));
            }
        }
    }
    if in_language(item, lang) {
        let k = position(item.qualifiers, XML_NAMESPACE@, "lang"@)->Some_0;
        assert forall|p: int| 0 <= p < k implies (#[trigger] item.qualifiers[p]).namespace
            != XML_NAMESPACE@ || item.qualifiers[p].name != "lang"@ by {
            assert(!is_named(item.qualifiers[p], XML_NAMESPACE@, "lang"@));
        }
        assert(item.qualifiers[k].namespace == XML_NAMESPACE@);
    }
}

/// The alternative of a property in a language is the text of the first of its items that is in
/// that language. It has none where it is no array of alternatives or where no item is in it.
pub proof fn law_alternatives_are_found_by_language(
    properties: Seq<PropertyView>,
    i: int,
    lang: Seq<char>,
)
    requires
        0 <= i < properties.len(),
        forall|j: int|
            0 <= j < i ==> (#[trigger] properties[j]).namespace != properties[i].namespace
                || properties[j].name != properties[i].name,
    ensures
        ({
            let found = language_alternative(
                properties,
                properties[i].namespace,
                properties[i].name,
                lang,
            );
            match properties[i].value {
                ValueView::Array(ArrayKind::Alt, items) => {
                    ||| found is None && forall|k: int|
                        0 <= k < items.len() ==> !speaks(#[trigger] items[k], lang)
                    ||| exists|k: int|
                        {
                            &&& 0 <= k < items.len()
                            &&& speaks(#[trigger] items[k], lang)
                            &&& forall|j: int| 0 <= j < k ==> !speaks(#[trigger] items[j], lang)
                            &&& match items[k].value {
                                ValueView::Simple(text) => found == Some(text),
                                _ => found is None,
                            }
                        }
                },
                _ => found is None,
            }
        }),
{
    let p = properties[i];
    lemma_position_from(properties, p.namespace, p.name, 0);
    assert(is_named(p, p.namespace, p.name));
    let at = position(properties, p.namespace, p.name)->Some_0;
    assert(at == i) by {
        if i < at {
            assert(!is_named(properties[i], p.namespace, p.name));
        }
        assert(is_named(properties[at], p.namespace, p.name));
    }
    if let ValueView::Array(ArrayKind::Alt, items) = p.value {
        lemma_language_position_from(items, lang, 0);
        assert forall|k: int| 0 <= k < items.len() implies in_language(items[k], lang) == speaks(
            #[trigger] items[k],
            lang,
        ) by {
            law_languages_are_qualifiers(items[k], lang);
        }
        if let Some(k) = language_position_from(items, lang, 0) {
            assert(speaks(items[k], lang));
        }
    }
}

} // verus!
