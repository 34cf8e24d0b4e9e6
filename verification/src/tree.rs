//! The element tree of an XML text, with names resolved and places recorded.

use vstd::prelude::*;
use vstd::string::*;
use vstd::utf8::*;

use crate::error;
use crate::error::{ErrorView, XmpError};
use crate::packet;
use crate::packet::XmpSourceSpan;
use crate::text::{chars_of, same_text, text_of};
use crate::xml;
use crate::xml::{lex, Resolution, StartTag, TokenKind, XmlToken};

verus! {

/// One namespace declaration encountered in the packet.
#[derive(Debug, PartialEq, Eq)]
pub struct XmpNamespaceBinding {
    /// Declared prefix, or `None` for the default namespace.
    pub prefix: Option<String>,
    /// Bound namespace URI.
    pub namespace: String,
    /// Span of the start tag carrying the declaration.
    pub span: XmpSourceSpan,
}

/// The mathematical form of an [`XmpNamespaceBinding`].
pub struct BindingView {
    /// See [`XmpNamespaceBinding::prefix`].
    pub prefix: Option<Seq<char>>,
    /// See [`XmpNamespaceBinding::namespace`].
    pub namespace: Seq<char>,
    /// See [`XmpNamespaceBinding::span`].
    pub span: XmpSourceSpan,
}

impl View for XmpNamespaceBinding {
    type V = BindingView;

    open spec fn view(&self) -> BindingView {
        BindingView {
            prefix: error::option_view(self.prefix),
            namespace: self.namespace@,
            span: self.span,
        }
    }
}

/// A copy of an optional text.
pub(crate) fn copy_option(option: &Option<String>) -> (r: Option<String>)
    ensures
        error::option_view(r) == error::option_view(*option),
{
    match option {
        Some(text) => Some(text.clone()),
        None => None,
    }
}

impl Clone for XmpNamespaceBinding {
    fn clone(&self) -> (r: Self)
        ensures
            r@ == self@,
    {
        XmpNamespaceBinding {
            prefix: copy_option(&self.prefix),
            namespace: self.namespace.clone(),
            span: self.span,
        }
    }
}

/// A namespace-resolved attribute.
#[derive(Debug, PartialEq, Eq)]
pub struct Attr {
    /// Prefix used by the attribute name, without the colon.
    pub prefix: Option<String>,
    /// The attribute's namespace URI, or `None` for an unprefixed attribute.
    pub ns: Option<String>,
    /// The attribute's local name.
    pub local: String,
    /// The attribute's (unescaped) value.
    pub value: String,
}

/// The mathematical form of an [`Attr`].
pub struct AttrView {
    /// See [`Attr::prefix`].
    pub prefix: Option<Seq<char>>,
    /// See [`Attr::ns`].
    pub ns: Option<Seq<char>>,
    /// See [`Attr::local`].
    pub local: Seq<char>,
    /// See [`Attr::value`].
    pub value: Seq<char>,
}

impl View for Attr {
    type V = AttrView;

    open spec fn view(&self) -> AttrView {
        AttrView {
            prefix: error::option_view(self.prefix),
            ns: error::option_view(self.ns),
            local: self.local@,
            value: self.value@,
        }
    }
}

/// The mathematical form of a list of attributes.
pub open spec fn attrs_view(attrs: Seq<Attr>) -> Seq<AttrView> {
    attrs.map_values(|a: Attr| a@)
}

/// The mathematical form of a list of bindings.
pub open spec fn bindings_view(bindings: Seq<XmpNamespaceBinding>) -> Seq<BindingView> {
    bindings.map_values(|b: XmpNamespaceBinding| b@)
}

/// An XML element with namespace-resolved names.
#[derive(Debug, PartialEq, Eq)]
pub struct Element {
    /// Exact element span in decoded UTF-8 source bytes.
    pub span: XmpSourceSpan,
    /// Span of the start tag.
    pub tag: XmpSourceSpan,
    /// Prefix used by the element name, without the colon.
    pub prefix: Option<String>,
    /// The element's namespace URI, or `None` if it is in no namespace.
    pub ns: Option<String>,
    /// The element's local name.
    pub local: String,
    /// Resolved attributes, excluding `xmlns` declarations.
    pub attrs: Vec<Attr>,
    /// Namespace declarations carried by this element's start tag.
    pub bindings: Vec<XmpNamespaceBinding>,
    /// The character data directly in the element (text, CDATA, and resolved entity references,
    /// concatenated).
    pub text: String,
    /// Child elements in document order.
    pub children: Vec<Element>,
}

/// The mathematical form of an [`Element`].
pub struct ElementView {
    /// See [`Element::span`].
    pub span: XmpSourceSpan,
    /// See [`Element::tag`].
    pub tag: XmpSourceSpan,
    /// See [`Element::prefix`].
    pub prefix: Option<Seq<char>>,
    /// See [`Element::ns`].
    pub ns: Option<Seq<char>>,
    /// See [`Element::local`].
    pub local: Seq<char>,
    /// See [`Element::attrs`].
    pub attrs: Seq<AttrView>,
    /// See [`Element::bindings`].
    pub bindings: Seq<BindingView>,
    /// See [`Element::text`].
    pub text: Seq<char>,
    /// See [`Element::children`].
    pub children: Seq<ElementView>,
}

/// The mathematical form of an element.
pub open spec fn element_view(e: Element) -> ElementView
    decreases e,
{
    ElementView {
        span: e.span,
        tag: e.tag,
        prefix: error::option_view(e.prefix),
        ns: error::option_view(e.ns),
        local: e.local@,
        attrs: attrs_view(e.attrs@),
        bindings: bindings_view(e.bindings@),
        text: e.text@,
        children: elements_view(e.children@),
    }
}

/// The mathematical form of a list of elements.
pub open spec fn elements_view(s: Seq<Element>) -> Seq<ElementView>
    decreases s,
{
    if s.len() == 0 {
        Seq::empty()
    } else {
        elements_view(s.drop_last()).push(element_view(s.last()))
    }
}

impl View for Element {
    type V = ElementView;

    open spec fn view(&self) -> ElementView {
        element_view(*self)
    }
}

/// A list of elements has the views of its elements.
pub proof fn lemma_elements_view(s: Seq<Element>)
    ensures
        elements_view(s).len() == s.len(),
        forall|i: int| 0 <= i < s.len() ==> #[trigger] elements_view(s)[i] == element_view(s[i]),
    decreases s.len(),
{
    if s.len() > 0 {
        lemma_elements_view(s.drop_last());
        assert forall|i: int| 0 <= i < s.len() implies #[trigger] elements_view(s)[i]
            == element_view(s[i]) by {
            if i < s.len() - 1 {
                assert(elements_view(s.drop_last())[i] == element_view(s.drop_last()[i]));
            }
        }
    }
}

/// Appending to a list appends to its view.
proof fn lemma_elements_push(s: Seq<Element>, e: Element)
    ensures
        elements_view(s.push(e)) == elements_view(s).push(element_view(e)),
{
    assert(s.push(e).drop_last() =~= s);
}

// ---------------------------------------------------------------------------------------------
// Start tags
// ---------------------------------------------------------------------------------------------

/// The namespace of a resolved name, or the error that its prefix is not declared.
pub open spec fn namespace_of(resolution: xml::ResolutionView) -> Result<
    Option<Seq<char>>,
    ErrorView,
> {
    match resolution {
        xml::ResolutionView::Bound(uri) => Ok(Some(uri)),
        xml::ResolutionView::Unbound => Ok(None),
        xml::ResolutionView::Unknown(prefix) => Err(ErrorView::UnknownPrefix(prefix)),
    }
}

/// The attributes and the namespace declarations of a start tag, or what is wrong with the first
/// attribute that is wrong.
pub open spec fn sorted_attributes(
    attributes: Seq<Result<xml::TagAttributeView, Seq<char>>>,
    tag: XmpSourceSpan,
) -> Result<(Seq<AttrView>, Seq<BindingView>), ErrorView>
    decreases attributes.len(),
{
    if attributes.len() == 0 {
        Ok((Seq::empty(), Seq::empty()))
    } else {
        match sorted_attributes(attributes.drop_last(), tag) {
            Err(e) => Err(e),
            Ok((attrs, bindings)) => match attributes.last() {
                Err(message) => Err(ErrorView::Xml(message)),
                Ok(a) => if a.key == "xmlns"@ || "xmlns:"@.is_prefix_of(a.key) {
                    Ok(
                        (
                            attrs,
                            bindings.push(
                                BindingView {
                                    prefix: if a.key == "xmlns"@ {
                                        None
                                    } else {
                                        Some(a.key.skip("xmlns:"@.len() as int))
                                    },
                                    namespace: a.value,
                                    span: tag,
                                },
                            ),
                        ),
                    )
                } else {
                    match namespace_of(a.namespace) {
                        Err(e) => Err(e),
                        Ok(ns) => match a.normalized {
                            Err(message) => Err(ErrorView::Xml(message)),
                            Ok(value) => Ok(
                                (
                                    attrs.push(
                                        AttrView {
                                            prefix: xml::prefix_part(a.key),
                                            ns,
                                            local: a.local,
                                            value,
                                        },
                                    ),
                                    bindings,
                                ),
                            ),
                        },
                    }
                },
            },
        }
    }
}

/// The element that a start tag opens.
pub open spec fn started(tag: xml::StartTagView, place: XmpSourceSpan) -> Result<
    ElementView,
    ErrorView,
> {
    match namespace_of(tag.namespace) {
        Err(e) => Err(e),
        Ok(ns) => match sorted_attributes(tag.attributes, place) {
            Err(e) => Err(e),
            Ok((attrs, bindings)) => Ok(
                ElementView {
                    span: place,
                    tag: place,
                    prefix: xml::prefix_part(tag.name),
                    ns,
                    local: tag.local,
                    attrs,
                    bindings,
                    text: Seq::empty(),
                    children: Seq::empty(),
                },
            ),
        },
    }
}

/// The part of a name before its first colon.
fn lexical_prefix(name: &str) -> (r: Option<String>)
    ensures
        error::option_view(r) == xml::prefix_part(name@),
{
    let chars = chars_of(name);
    let mut i: usize = 0;
    assert(name@.skip(0) =~= name@);
    while i < chars.len()
        invariant
            i <= chars@.len(),
            chars@ == name@,
            xml::colon(name@) == i + xml::colon(name@.skip(i as int)),
        decreases chars@.len() - i,
    {
        if chars[i] == ':' {
            assert(name@.skip(i as int)[0] == ':');
            assert(name@.subrange(0, i as int) =~= name@.take(i as int));
            return Some(text_of(chars.as_slice(), 0, i));
        }
        assert(name@.skip(i as int).drop_first() =~= name@.skip(i + 1));
        i = i + 1;
    }
    None
}

/// The namespace of a resolved name, or the error that its prefix is not declared.
fn finish_resolve(resolution: &Resolution) -> (r: Result<Option<String>, XmpError>)
    ensures
        match r {
            Ok(ns) => namespace_of(resolution@) == Ok::<Option<Seq<char>>, ErrorView>(
                error::option_view(ns),
            ),
            Err(e) => namespace_of(resolution@) == Err::<Option<Seq<char>>, ErrorView>(e@),
        },
{
    match resolution {
        Resolution::Bound(uri) => Ok(Some(uri.clone())),
        Resolution::Unbound => Ok(None),
        Resolution::Unknown(prefix) => Err(XmpError::UnknownPrefix(prefix.clone())),
    }
}

/// The prefix that an attribute declares: `None` if it is no declaration, and inside it `None` for
/// the default namespace.
fn declaration(key: &str) -> (r: Option<Option<String>>)
    ensures
        match r {
            Some(None) => key@ == "xmlns"@,
            Some(Some(prefix)) => key@ != "xmlns"@ && "xmlns:"@.is_prefix_of(key@) && prefix@
                == key@.skip("xmlns:"@.len() as int),
            None => key@ != "xmlns"@ && !"xmlns:"@.is_prefix_of(key@),
        },
{
    if same_text(key, "xmlns") {
        return Some(None);
    }
    let chars = chars_of(key);
    let lead = chars_of("xmlns:");
    let width: usize = lead.len();
    if chars.len() < width {
        return None;
    }
    let mut i: usize = 0;
    while i < width
        invariant
            i <= width == lead@.len(),
            width <= chars@.len(),
            chars@ == key@,
            lead@ == "xmlns:"@,
            key@ != "xmlns"@,
            forall|j: int| 0 <= j < i ==> chars@[j] == lead@[j],
        decreases width - i,
    {
        if chars[i] != lead[i] {
            assert(key@.subrange(0, width as int)[i as int] != lead@[i as int]);
            return None;
        }
        i = i + 1;
    }
    assert("xmlns:"@.is_prefix_of(key@));
    assert(key@.subrange(width as int, key@.len() as int) =~= key@.skip(width as int));
    Some(Some(text_of(chars.as_slice(), width, chars.len())))
}

/// The element that a start tag opens.
pub fn start_element(tag: &StartTag, start: usize, end: usize) -> (r: Result<Element, XmpError>)
    ensures
        error::outcome(r) == started(tag@, XmpSourceSpan { start, end }),
{
    let place = XmpSourceSpan { start, end };
    let ns = match finish_resolve(&tag.namespace) {
        Ok(ns) => ns,
        Err(e) => {
            return Err(e);
        },
    };
    let mut attrs: Vec<Attr> = Vec::new();
    let mut bindings: Vec<XmpNamespaceBinding> = Vec::new();
    let ghost all = tag@.attributes;
    let mut i: usize = 0;
    assert(all.take(0) =~= Seq::empty());
    assert(attrs_view(attrs@) =~= Seq::empty());
    assert(bindings_view(bindings@) =~= Seq::empty());
    while i < tag.attributes.len()
        invariant
            i <= tag.attributes@.len(),
            all == xml::attributes_view(tag.attributes@),
            sorted_attributes(all.take(i as int), place) == Ok::<
                (Seq<AttrView>, Seq<BindingView>),
                ErrorView,
            >((attrs_view(attrs@), bindings_view(bindings@))),
            place == (XmpSourceSpan { start, end }),
            namespace_of(tag@.namespace) is Ok,
            tag@.attributes == all,
        decreases tag.attributes@.len() - i,
    {
        proof {
            assert(all.take(i + 1).drop_last() =~= all.take(i as int));
            assert(all.take(i + 1).last() == all[i as int]);
            assert(all[i as int] == error::outcome(tag.attributes@[i as int]));
            if sorted_attributes(all.take(i + 1), place) is Err {
                lemma_sorted_error(all, i + 1, place);
            }
        }
        let ghost attrs_before = attrs@;
        let ghost bindings_before = bindings@;
        let attribute = match &tag.attributes[i] {
            Ok(attribute) => attribute,
            Err(message) => {
                return Err(XmpError::Xml(message.clone()));
            },
        };
        match declaration(attribute.key.as_str()) {
            Some(prefix) => {
                let binding = XmpNamespaceBinding {
                    prefix,
                    namespace: attribute.value.clone(),
                    span: place,
                };
                bindings.push(binding);
                assert(bindings_view(bindings@) =~= bindings_view(bindings_before).push(
                    binding@,
                ));
            },
            None => {
                let ns = match finish_resolve(&attribute.namespace) {
                    Ok(ns) => ns,
                    Err(e) => {
                        return Err(e);
                    },
                };
                let value = match &attribute.normalized {
                    Ok(value) => value.clone(),
                    Err(message) => {
                        return Err(XmpError::Xml(message.clone()));
                    },
                };
                let attr = Attr {
                    prefix: lexical_prefix(attribute.key.as_str()),
                    ns,
                    local: attribute.local.clone(),
                    value,
                };
                attrs.push(attr);
                assert(attrs_view(attrs@) =~= attrs_view(attrs_before).push(attr@));
            },
        }
        i = i + 1;
    }
    assert(all.take(all.len() as int) =~= all);
    Ok(
        Element {
            span: place,
            tag: place,
            prefix: lexical_prefix(tag.name.as_str()),
            ns,
            local: tag.local.clone(),
            attrs,
            bindings,
            text: String::new(),
            children: Vec::new(),
        },
    )
}

/// The first attribute that is wrong decides what is reported.
proof fn lemma_sorted_error(
    attributes: Seq<Result<xml::TagAttributeView, Seq<char>>>,
    i: int,
    tag: XmpSourceSpan,
)
    requires
        0 <= i <= attributes.len(),
        sorted_attributes(attributes.take(i), tag) is Err,
    ensures
        sorted_attributes(attributes, tag) == sorted_attributes(attributes.take(i), tag),
    decreases attributes.len() - i,
{
    if i < attributes.len() {
        assert(attributes.take(i + 1).drop_last() =~= attributes.take(i));
        lemma_sorted_error(attributes, i + 1, tag);
    } else {
        assert(attributes.take(i) =~= attributes);
    }
}

// ---------------------------------------------------------------------------------------------
// The tree
// ---------------------------------------------------------------------------------------------

/// An element that was closed at `end`.
pub open spec fn closed(e: ElementView, end: int) -> ElementView {
    ElementView { span: packet::span(e.span.start as int, end), ..e }
}

/// An element with a child added.
pub open spec fn with_child(e: ElementView, child: ElementView) -> ElementView {
    ElementView { children: e.children.push(child), ..e }
}

/// An element with character data added.
pub open spec fn with_text(e: ElementView, text: Seq<char>) -> ElementView {
    ElementView { text: e.text + text, ..e }
}

/// The root element that the tokens from `i` on make, where `open` are the elements that are open
/// and `root` is the root if it is complete. Places in the tokens count from `base`.
pub open spec fn assembled(
    tokens: Seq<xml::TokenView>,
    i: int,
    base: int,
    open: Seq<ElementView>,
    root: Option<ElementView>,
) -> Result<ElementView, ErrorView>
    decreases tokens.len() - i,
{
    if i < 0 || i >= tokens.len() {
        match root {
            Some(root) => Ok(root),
            None => Err(ErrorView::MissingRdf),
        }
    } else {
        let end = base + tokens[i].end;
        match tokens[i].kind {
            xml::KindView::Malformed(message) => Err(ErrorView::Xml(message)),
            xml::KindView::Other => assembled(tokens, i + 1, base, open, root),
            xml::KindView::Start(tag) => match started(
                tag,
                packet::span(base + tokens[i].start, end),
            ) {
                Err(e) => Err(e),
                Ok(e) => assembled(tokens, i + 1, base, open.push(e), root),
            },
            xml::KindView::Text(text) => assembled(
                tokens,
                i + 1,
                base,
                if open.len() == 0 {
                    open
                } else {
                    open.drop_last().push(with_text(open.last(), text))
                },
                root,
            ),
            xml::KindView::End => if open.len() == 0 {
                Err(ErrorView::Xml("unbalanced end tag"@))
            } else if open.len() == 1 {
                if root is Some {
                    Err(ErrorView::Xml("multiple root elements"@))
                } else {
                    assembled(
                        tokens,
                        i + 1,
                        base,
                        Seq::empty(),
                        Some(closed(open.last(), end)),
                    )
                }
            } else {
                let outer = open.drop_last();
                assembled(
                    tokens,
                    i + 1,
                    base,
                    outer.drop_last().push(with_child(outer.last(), closed(open.last(), end))),
                    root,
                )
            },
        }
    }
}

/// The mathematical form of an optional element.
pub open spec fn optional_view(e: Option<Element>) -> Option<ElementView> {
    match e {
        Some(e) => Some(element_view(e)),
        None => None,
    }
}

/// The root element that tokens make. Places in the tokens count from `base`.
pub fn assemble(tokens: &Vec<XmlToken>, base: usize) -> (r: Result<Element, XmpError>)
    requires
        xml::are_within(xml::tokens_view(tokens@), (usize::MAX - base) as nat),
    ensures
        error::outcome(r) == assembled(
            xml::tokens_view(tokens@),
            0,
            base as int,
            Seq::empty(),
            None,
        ),
{
    let ghost all = xml::tokens_view(tokens@);
    let mut stack: Vec<Element> = Vec::new();
    let mut root: Option<Element> = None;
    let mut i: usize = 0;
    while i < tokens.len()
        invariant
            i <= tokens@.len(),
            all == xml::tokens_view(tokens@),
            xml::are_within(all, (usize::MAX - base) as nat),
            assembled(all, 0, base as int, Seq::empty(), None) == assembled(
                all,
                i as int,
                base as int,
                elements_view(stack@),
                optional_view(root),
            ),
        decreases tokens@.len() - i,
    {
        let token = &tokens[i];
        proof {
            assert(all[i as int] == token@);
            lemma_elements_view(stack@);
        }
        let start: usize = base + token.start;
        let end: usize = base + token.end;
        let ghost before = stack@;
        match &token.kind {
            TokenKind::Malformed(message) => {
                return Err(XmpError::Xml(message.clone()));
            },
            TokenKind::Other => {},
            TokenKind::Start(tag) => match start_element(tag, start, end) {
                Ok(e) => {
                    proof {
                        lemma_elements_push(stack@, e);
                    }
                    stack.push(e);
                },
                Err(e) => {
                    return Err(e);
                },
            },
            TokenKind::Text(text) => {
                match stack.pop() {
                    Some(mut top) => {
                        top.text.append(text.as_str());
                        proof {
                            let open = elements_view(before);
                            assert(open.drop_last() =~= elements_view(stack@));
                            assert(element_view(top) == with_text(open.last(), text@));
                            lemma_elements_push(stack@, top);
                        }
                        stack.push(top);
                    },
                    None => {},
                }
            },
            TokenKind::End => match stack.pop() {
                None => {
                    return Err(XmpError::Xml("unbalanced end tag".to_owned()));
                },
                Some(mut done) => {
                    done.span = XmpSourceSpan { start: done.span.start, end };
                    let ghost outer = stack@;
                    proof {
                        lemma_elements_view(stack@);
                        assert(elements_view(before).drop_last() =~= elements_view(outer));
                        assert(element_view(done) == closed(
                            elements_view(before).last(),
                            end as int,
                        ));
                    }
                    match stack.pop() {
                        Some(mut parent) => {
                            proof {
                                lemma_elements_push(parent.children@, done);
                            }
                            parent.children.push(done);
                            proof {
                                assert(elements_view(outer).drop_last() =~= elements_view(stack@));
                                assert(element_view(parent) == with_child(
                                    elements_view(outer).last(),
                                    element_view(done),
                                ));
                                lemma_elements_push(stack@, parent);
                            }
                            stack.push(parent);
                        },
                        None => {
                            if root.is_some() {
                                return Err(XmpError::Xml("multiple root elements".to_owned()));
                            }
                            root = Some(done);
                            assert(elements_view(stack@) =~= Seq::<ElementView>::empty());
                        },
                    }
                },
            },
        }
        i = i + 1;
    }
    match root {
        Some(root) => Ok(root),
        None => Err(XmpError::MissingRdf),
    }
}

/// The root element of an XML text whose first byte is at `base`.
pub open spec fn tree_of(xml: Seq<char>, base: int) -> Result<ElementView, ErrorView> {
    assembled(xml::tokens_from(xml::lexed(xml), 0), 0, base, Seq::empty(), None)
}

/// Lexes `xml` into the top-level [`Element`] (`x:xmpmeta` or `rdf:RDF`).
pub fn build_tree(xml: &str, base: usize) -> (r: Result<Element, XmpError>)
    requires
        base + encode_utf8(xml@).len() <= usize::MAX,
    ensures
        error::outcome(r) == tree_of(xml@, base as int),
        xml::is_sound(xml@),
{
    assemble(&lex(xml), base)
}

} // verus!
