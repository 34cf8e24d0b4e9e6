//! Lexing of XML: the boundary to `quick_xml`.
//!
//! Everything that the lexer computes is turned here into [`XmlToken`]s, plain values that say
//! what each construct of the text is. What is made of the tokens does not touch the lexer.

use std::borrow::Cow;

use quick_xml::escape::unescape;
use quick_xml::events::attributes::Attribute;
use quick_xml::events::{BytesStart, Event};
use quick_xml::name::{QName, ResolveResult};
use quick_xml::{NsReader, XmlVersion};
use vstd::prelude::*;
use vstd::string::*;
use vstd::utf8::*;

use crate::error;
use crate::namespace::XML_NAMESPACE;
use crate::text::join3;

verus! {

// ---------------------------------------------------------------------------------------------
// Markup
// ---------------------------------------------------------------------------------------------

/// Whether `c` can stand in a name: an ASCII letter or digit, one of `-`, `_`, `.` and `:`, or a
/// character beyond ASCII.
pub open spec fn is_name_char(c: char) -> bool {
    ||| 'a' <= c <= 'z'
    ||| 'A' <= c <= 'Z'
    ||| '0' <= c <= '9'
    ||| c == '-'
    ||| c == '_'
    ||| c == '.'
    ||| c == ':'
    ||| c >= '\u{80}'
}

/// Whether a text is a name.
pub open spec fn is_name(text: Seq<char>) -> bool {
    text.len() > 0 && forall|i: int| 0 <= i < text.len() ==> is_name_char(#[trigger] text[i])
}

/// Whether a text can stand between double quotes as it is.
pub open spec fn is_quotable(text: Seq<char>) -> bool {
    forall|i: int| 0 <= i < text.len() ==> #[trigger] text[i] != '"'
}

/// The text of one attribute in a tag, after a space and in double quotes.
pub open spec fn attribute_text(key: Seq<char>, value: Seq<char>) -> Seq<char> {
    seq![' '] + key + seq!['=', '"'] + value + seq!['"']
}

/// The text of attributes in a tag.
pub open spec fn attributes_text(attributes: Seq<(Seq<char>, Seq<char>)>) -> Seq<char>
    decreases attributes.len(),
{
    if attributes.len() == 0 {
        Seq::empty()
    } else {
        attributes_text(attributes.drop_last()) + attribute_text(
            attributes.last().0,
            attributes.last().1,
        )
    }
}

/// Whether attributes have names for keys, all different, and values that can be quoted.
pub open spec fn are_attributes(attributes: Seq<(Seq<char>, Seq<char>)>) -> bool {
    &&& forall|i: int|
        0 <= i < attributes.len() ==> is_name((#[trigger] attributes[i]).0) && is_quotable(
            attributes[i].1,
        )
    &&& forall|i: int, j: int|
        0 <= i < j < attributes.len() ==> (#[trigger] attributes[i]).0 != (
        #[trigger] attributes[j]).0
}

/// The entity that stands for `c` in an attribute value.
pub open spec fn attribute_entity(c: char) -> Option<Seq<char>> {
    if c == '&' {
        Some("amp"@)
    } else if c == '<' {
        Some("lt"@)
    } else if c == '>' {
        Some("gt"@)
    } else if c == '"' {
        Some("quot"@)
    } else if c == '\t' {
        Some("#x9"@)
    } else if c == '\n' {
        Some("#xA"@)
    } else if c == '\r' {
        Some("#xD"@)
    } else {
        None
    }
}

/// The entity that stands for `c` in character data.
pub open spec fn text_entity(c: char) -> Option<Seq<char>> {
    if c == '&' {
        Some("amp"@)
    } else if c == '<' {
        Some("lt"@)
    } else if c == '>' {
        Some("gt"@)
    } else if c == '\r' {
        Some("#xD"@)
    } else {
        None
    }
}

/// The reference to an entity.
pub open spec fn reference(entity: Seq<char>) -> Seq<char> {
    seq!['&'] + entity + seq![';']
}

/// A text with the characters that mean something in an attribute value written as references.
pub open spec fn escaped_attribute(text: Seq<char>) -> Seq<char>
    decreases text.len(),
{
    if text.len() == 0 {
        Seq::empty()
    } else {
        escaped_attribute(text.drop_last()) + (match attribute_entity(text.last()) {
            Some(entity) => reference(entity),
            None => seq![text.last()],
        })
    }
}

/// A text with the characters that mean something in character data written as references.
pub open spec fn escaped_text(text: Seq<char>) -> Seq<char>
    decreases text.len(),
{
    if text.len() == 0 {
        Seq::empty()
    } else {
        (match text_entity(text[0]) {
            Some(entity) => reference(entity),
            None => seq![text[0]],
        }) + escaped_text(text.drop_first())
    }
}

// ---------------------------------------------------------------------------------------------
// Names and namespaces
// ---------------------------------------------------------------------------------------------

/// The namespace of a name.
#[derive(Debug, PartialEq, Eq)]
pub enum Resolution {
    /// The name is in the namespace with this URI.
    Bound(String),
    /// The name is in no namespace.
    Unbound,
    /// The prefix of the name is not declared.
    Unknown(String),
}

/// The mathematical form of a [`Resolution`].
pub enum ResolutionView {
    /// See [`Resolution::Bound`].
    Bound(Seq<char>),
    /// See [`Resolution::Unbound`].
    Unbound,
    /// See [`Resolution::Unknown`].
    Unknown(Seq<char>),
}

impl View for Resolution {
    type V = ResolutionView;

    open spec fn view(&self) -> ResolutionView {
        match self {
            Resolution::Bound(uri) => ResolutionView::Bound(uri@),
            Resolution::Unbound => ResolutionView::Unbound,
            Resolution::Unknown(prefix) => ResolutionView::Unknown(prefix@),
        }
    }
}

/// The URI that the last binding of a prefix gives. The prefix of the default namespace is empty.
pub open spec fn binding(scope: Seq<(Seq<char>, Seq<char>)>, prefix: Seq<char>) -> Option<
    Seq<char>,
>
    decreases scope.len(),
{
    if scope.len() == 0 {
        None
    } else if scope.last().0 == prefix {
        Some(scope.last().1)
    } else {
        binding(scope.drop_last(), prefix)
    }
}

/// The index of the first colon of a name, or its length.
pub open spec fn colon(name: Seq<char>) -> int
    decreases name.len(),
{
    if name.len() == 0 {
        0
    } else if name[0] == ':' {
        0
    } else {
        1 + colon(name.drop_first())
    }
}

/// The part of a name after its first colon; the whole name where there is none.
pub open spec fn local_part(name: Seq<char>) -> Seq<char> {
    if colon(name) < name.len() {
        name.skip(colon(name) + 1)
    } else {
        name
    }
}

/// The part of a name before its first colon.
pub open spec fn prefix_part(name: Seq<char>) -> Option<Seq<char>> {
    if colon(name) < name.len() {
        Some(name.take(colon(name)))
    } else {
        None
    }
}

/// The namespace of a name in a scope. A name without a prefix is in the default namespace if that
/// applies, and an empty URI means that there is no binding.
pub open spec fn resolved(
    scope: Seq<(Seq<char>, Seq<char>)>,
    name: Seq<char>,
    use_default: bool,
) -> ResolutionView {
    match prefix_part(name) {
        None => if !use_default {
            ResolutionView::Unbound
        } else {
            match binding(scope, Seq::empty()) {
                Some(uri) => if uri.len() > 0 {
                    ResolutionView::Bound(uri)
                } else {
                    ResolutionView::Unbound
                },
                None => ResolutionView::Unbound,
            }
        },
        Some(prefix) => match binding(scope, prefix) {
            Some(uri) => if prefix.len() > 0 && uri.len() > 0 {
                ResolutionView::Bound(uri)
            } else {
                ResolutionView::Unknown(prefix)
            },
            None => ResolutionView::Unknown(prefix),
        },
    }
}

/// The namespace of the reserved prefix `xmlns`.
pub const XMLNS_NAMESPACE: &'static str = "http://www.w3.org/2000/xmlns/";

/// The bindings that hold everywhere.
pub open spec fn reserved_scope() -> Seq<(Seq<char>, Seq<char>)> {
    seq![("xml"@, XML_NAMESPACE@), ("xmlns"@, XMLNS_NAMESPACE@)]
}

/// The prefix that an attribute with the given key declares, if it is a namespace declaration. The
/// prefix of the default namespace is empty.
pub open spec fn declared_prefix(key: Seq<char>) -> Option<Seq<char>> {
    if key == "xmlns"@ {
        Some(Seq::empty())
    } else if "xmlns:"@.is_prefix_of(key) {
        Some(key.skip("xmlns:"@.len() as int))
    } else {
        None
    }
}

/// The bindings that attributes declare.
pub open spec fn declarations(attributes: Seq<(Seq<char>, Seq<char>)>) -> Seq<
    (Seq<char>, Seq<char>),
>
    decreases attributes.len(),
{
    if attributes.len() == 0 {
        Seq::empty()
    } else {
        let before = declarations(attributes.drop_last());
        match declared_prefix(attributes.last().0) {
            Some(prefix) => before.push((prefix, attributes.last().1)),
            None => before,
        }
    }
}

/// Whether bindings leave the reserved prefixes and their namespaces alone and are not too many
/// for one tag.
pub open spec fn are_declarable(bindings: Seq<(Seq<char>, Seq<char>)>) -> bool {
    &&& bindings.len() <= 256
    &&& forall|i: int|
        0 <= i < bindings.len() ==> {
            &&& (#[trigger] bindings[i]).0 != "xml"@
            &&& bindings[i].0 != "xmlns"@
            &&& bindings[i].1 != XML_NAMESPACE@
            &&& bindings[i].1 != XMLNS_NAMESPACE@
        }
}

// ---------------------------------------------------------------------------------------------
// The lexer
// ---------------------------------------------------------------------------------------------

/// What the lexer reads in one step.
pub enum XmlEvent {
    /// A start tag: its name, and what follows the name in the tag.
    Start(String, String),
    /// An end tag, or the end of a tag that closes itself.
    End,
    /// Character data.
    Text(String),
    /// A reference to the named entity or character.
    Reference(String),
    /// A comment, a declaration or a processing instruction.
    Other,
    /// The end of the text.
    Eof,
}

/// The mathematical form of an [`XmlEvent`].
pub enum EventView {
    /// See [`XmlEvent::Start`].
    Start(Seq<char>, Seq<char>),
    /// See [`XmlEvent::End`].
    End,
    /// See [`XmlEvent::Text`].
    Text(Seq<char>),
    /// See [`XmlEvent::Reference`].
    Reference(Seq<char>),
    /// See [`XmlEvent::Other`].
    Other,
    /// See [`XmlEvent::Eof`].
    Eof,
}

impl View for XmlEvent {
    type V = EventView;

    open spec fn view(&self) -> EventView {
        match self {
            XmlEvent::Start(name, rest) => EventView::Start(name@, rest@),
            XmlEvent::End => EventView::End,
            XmlEvent::Text(text) => EventView::Text(text@),
            XmlEvent::Reference(entity) => EventView::Reference(entity@),
            XmlEvent::Other => EventView::Other,
            XmlEvent::Eof => EventView::Eof,
        }
    }
}

/// An element that is open: its name and the namespace bindings that hold in it.
pub struct OpenElement {
    /// The name as written.
    pub name: Seq<char>,
    /// The bindings, as pairs of prefix and URI; a later one hides an earlier one.
    pub scope: Seq<(Seq<char>, Seq<char>)>,
}

/// A state of the lexer, and how it came there.
pub struct XmlStep {
    /// What was read last; of no meaning in the first state.
    pub outcome: Result<EventView, Seq<char>>,
    /// The number of bytes read.
    pub position: nat,
    /// What is left to read.
    pub rest: Seq<char>,
    /// Whether a tag that closes itself waits for its end to be reported.
    pub closing: bool,
    /// The elements that are open.
    pub open: Seq<OpenElement>,
}

/// The largest number of elements that can be open at once.
pub const MAX_DEPTH: usize = 65535;

/// The bindings that hold where `open` are the open elements.
pub open spec fn scope_in(open: Seq<OpenElement>) -> Seq<(Seq<char>, Seq<char>)> {
    if open.len() == 0 {
        reserved_scope()
    } else {
        open.last().scope
    }
}

/// Whether `rest` begins with character data without references, up to markup, a reference or the
/// end.
pub open spec fn at_text(rest: Seq<char>, run: Seq<char>, tail: Seq<char>) -> bool {
    &&& rest == run + tail
    &&& run.len() > 0
    &&& forall|i: int| 0 <= i < run.len() ==> #[trigger] run[i] != '<' && run[i] != '&'
    &&& tail.len() > 0 ==> tail[0] == '<' || tail[0] == '&'
}

/// Whether `rest` begins with a reference to an entity.
pub open spec fn at_reference(rest: Seq<char>, entity: Seq<char>, tail: Seq<char>) -> bool {
    &&& rest == reference(entity) + tail
    &&& forall|i: int|
        0 <= i < entity.len() ==> #[trigger] entity[i] != '<' && entity[i] != '&' && entity[i]
            != ';'
}

/// Whether `rest` begins with a start tag that has a name and attributes.
pub open spec fn at_start_tag(
    rest: Seq<char>,
    name: Seq<char>,
    attributes: Seq<(Seq<char>, Seq<char>)>,
    tail: Seq<char>,
) -> bool {
    &&& rest == seq!['<'] + name + attributes_text(attributes) + seq!['>'] + tail
    &&& is_name(name)
    &&& are_attributes(attributes)
    &&& are_declarable(declarations(attributes))
}

/// Whether `rest` begins with an end tag that has a name.
pub open spec fn at_end_tag(rest: Seq<char>, name: Seq<char>, tail: Seq<char>) -> bool {
    &&& rest == seq!['<', '/'] + name + seq!['>'] + tail
    &&& is_name(name)
}

/// What one step of the lexer does: it moves on, it keeps count of the open elements, and it reads
/// plain markup as what it is. Only a byte-order mark at the very front is not character data.
pub open spec fn follows(before: XmlStep, after: XmlStep) -> bool {
    &&& before.position <= after.position
    &&& after.outcome matches Ok(event) ==> after.open.len() == (match event {
        EventView::Start(_, _) => before.open.len() as int + 1,
        EventView::End => before.open.len() - 1,
        _ => before.open.len() as int,
    })
    &&& !before.closing && before.rest.len() == 0 ==> after.outcome == Ok::<
        EventView,
        Seq<char>,
    >(EventView::Eof)
    &&& forall|run: Seq<char>, tail: Seq<char>|
        !before.closing && (before.position > 0 || run[0] != '\u{feff}') && #[trigger] at_text(
            before.rest,
            run,
            tail,
        ) ==> after == (XmlStep {
            outcome: Ok(EventView::Text(run)),
            position: after.position,
            rest: tail,
            closing: false,
            open: before.open,
        })
    &&& forall|entity: Seq<char>, tail: Seq<char>|
        !before.closing && #[trigger] at_reference(before.rest, entity, tail) ==> after == (
        XmlStep {
            outcome: Ok(EventView::Reference(entity)),
            position: after.position,
            rest: tail,
            closing: false,
            open: before.open,
        })
    &&& forall|name: Seq<char>, attributes: Seq<(Seq<char>, Seq<char>)>, tail: Seq<char>|
        !before.closing && #[trigger] at_start_tag(before.rest, name, attributes, tail)
            ==> before.position < after.position && after == (XmlStep {
            outcome: Ok(EventView::Start(name, attributes_text(attributes))),
            position: after.position,
            rest: tail,
            closing: false,
            open: before.open.push(
                OpenElement {
                    name,
                    scope: scope_in(before.open) + declarations(attributes),
                },
            ),
        })
    &&& forall|name: Seq<char>, tail: Seq<char>|
        !before.closing && before.open.len() > 0 && before.open.last().name == name
            && #[trigger] at_end_tag(before.rest, name, tail) ==> after == (XmlStep {
            outcome: Ok(EventView::End),
            position: after.position,
            rest: tail,
            closing: false,
            open: before.open.drop_last(),
        })
}

/// Whether a state is the last: the end of the text was read, or an error.
pub open spec fn is_last(step: XmlStep) -> bool {
    step.outcome is Err || step.outcome == Ok::<EventView, Seq<char>>(EventView::Eof)
}

/// Whether the lexer goes from the state at `i` to the next as it should, and goes on until it has
/// read the end or an error.
pub open spec fn steps_at(trace: Seq<XmlStep>, i: int) -> bool {
    &&& follows(trace[i], trace[i + 1])
    &&& is_last(trace[i + 1]) <==> i + 2 == trace.len()
}

/// Whether the bytes that the lexer reads in a step begin and end as a tag does, where it reads one:
/// a start tag from its `<` to its `>`, and an end up to the `>` of the tag that ends the element.
pub open spec fn reads_tag(b: Seq<u8>, before: XmlStep, after: XmlStep) -> bool {
    match after.outcome {
        Ok(EventView::Start(_, _)) => {
            &&& before.position < after.position <= b.len()
            &&& b[before.position as int] == 0x3C
            &&& b[after.position - 1] == 0x3E
        },
        Ok(EventView::End) => 0 < after.position <= b.len() && b[after.position - 1] == 0x3E,
        _ => true,
    }
}

/// Whether `trace` is what the lexer does on a text: it begins at the front of the text, it never
/// leaves the text, and after each event it stands between two characters, and tags lie between
/// their brackets, except where a text begins with a byte-order mark, which it does not count.
pub open spec fn is_trace(trace: Seq<XmlStep>, xml: Seq<char>) -> bool {
    &&& trace.len() > 1
    &&& trace[0].rest == xml
    &&& trace[0].position == 0
    &&& !trace[0].closing
    &&& trace[0].open.len() == 0
    &&& forall|i: int|
        0 <= i < trace.len() - 1 ==> #[trigger] steps_at(trace, i) && (xml.len() == 0 || xml[0]
            != '\u{feff}' ==> reads_tag(encode_utf8(xml), trace[i], trace[i + 1]))
    &&& forall|i: int|
        0 < i < trace.len() ==> {
            &&& (#[trigger] trace[i]).position <= encode_utf8(xml).len()
            &&& trace[i].outcome is Ok && xml.len() > 0 && xml[0] != '\u{feff}'
                ==> is_char_boundary(encode_utf8(xml), trace[i].position as int)
        }
}

/// `quick_xml`'s namespace-aware reader.
#[verifier::external_type_specification]
#[verifier::external_body]
#[verifier::reject_recursive_types(R)]
pub struct ExNsReader<R>(NsReader<R>);

/// The state of a reader and the states that it will go through, up to the first error or the end
/// of its text.
pub uninterp spec fn reader_trace(reader: NsReader<&[u8]>) -> Seq<XmlStep>;

/// The states that a reader goes through on a text.
pub uninterp spec fn lexed(xml: Seq<char>) -> Seq<XmlStep>;

/// Calls `NsReader::from_str`, and sets the option that makes a tag that closes itself come out as
/// a start and an end. Claimed: what the reader will read depends on the text alone, ends after
/// finitely many steps, and is as [`is_trace`] says.
#[verifier::external_body]
fn open_reader(xml: &str) -> (reader: NsReader<&[u8]>)
    ensures
        reader_trace(reader) == lexed(xml@),
        is_trace(reader_trace(reader), xml@),
{
    let mut reader = NsReader::from_str(xml);
    reader.config_mut().expand_empty_elements = true;
    reader
}

/// Calls `NsReader::read_event`, and decodes the event: that of a text into its characters, that
/// of a reference into the name between `&` and `;`. The reader works on a `str`, so the bytes are
/// UTF-8. Claimed: it goes to the next state and tells what was read. The reader counts open
/// elements in sixteen bits, hence the bound.
#[verifier::external_body]
fn next_event(reader: &mut NsReader<&[u8]>) -> (r: Result<XmlEvent, String>)
    requires
        reader_trace(*old(reader)).len() > 1,
        reader_trace(*old(reader))[0].open.len() < MAX_DEPTH,
    ensures
        error::outcome(r) == reader_trace(*old(reader))[1].outcome,
        reader_trace(*final(reader)) == reader_trace(*old(reader)).drop_first(),
{
    let decoded = |bytes: &[u8]| String::from_utf8_lossy(bytes).into_owned();
    match reader.read_event().map_err(|e| e.to_string())? {
        Event::Start(e) => Ok(XmlEvent::Start(decoded(e.name().0), decoded(e.attributes_raw()))),
        Event::End(_) => Ok(XmlEvent::End),
        Event::Text(t) => Ok(XmlEvent::Text(decoded(&t))),
        Event::CData(t) => Ok(XmlEvent::Text(decoded(&t))),
        Event::GeneralRef(t) => Ok(XmlEvent::Reference(decoded(&t))),
        Event::Eof => Ok(XmlEvent::Eof),
        _ => Ok(XmlEvent::Other),
    }
}

/// Calls `Reader::buffer_position`. Claimed: it is the number of bytes read.
#[verifier::external_body]
fn source_position(reader: &NsReader<&[u8]>) -> (r: u64)
    requires
        reader_trace(*reader).len() > 0,
    ensures
        r == reader_trace(*reader)[0].position,
{
    reader.buffer_position()
}

/// Calls `NamespaceResolver::resolve` on the bindings of the reader. Claimed: the namespace is the
/// one that the bindings of the innermost open element give, and the second result is the local
/// part of the name.
#[verifier::external_body]
fn resolve_name(reader: &NsReader<&[u8]>, name: &str, use_default: bool) -> (r: (Resolution, String))
    requires
        reader_trace(*reader).len() > 0,
        reader_trace(*reader)[0].outcome matches Ok(event) && event is Start,
    ensures
        r.0@ == resolved(scope_in(reader_trace(*reader)[0].open), name@, use_default),
        r.1@ == local_part(name@),
{
    let (resolved, local) = reader.resolver().resolve(QName(name.as_bytes()), use_default);
    let local = String::from_utf8_lossy(local.as_ref()).into_owned();
    match resolved {
        ResolveResult::Bound(uri) => {
            (Resolution::Bound(String::from_utf8_lossy(uri.as_ref()).into_owned()), local)
        },
        ResolveResult::Unbound => (Resolution::Unbound, local),
        ResolveResult::Unknown(p) => {
            (Resolution::Unknown(String::from_utf8_lossy(&p).into_owned()), local)
        },
    }
}

/// What a tag's attributes are: for each its key and raw value, or what is wrong with it.
pub uninterp spec fn tag_attributes(name: Seq<char>, rest: Seq<char>) -> Seq<
    Result<(Seq<char>, Seq<char>), Seq<char>>,
>;

/// The mathematical form of an attribute as it was read.
pub open spec fn raw_attribute(attribute: Result<(String, String), String>) -> Result<
    (Seq<char>, Seq<char>),
    Seq<char>,
> {
    match attribute {
        Ok((key, value)) => Ok((key@, value@)),
        Err(message) => Err(message@),
    }
}

/// The mathematical form of attributes as they were read.
pub open spec fn raw_attributes(attributes: Seq<Result<(String, String), String>>) -> Seq<
    Result<(Seq<char>, Seq<char>), Seq<char>>,
> {
    attributes.map_values(|a: Result<(String, String), String>| raw_attribute(a))
}

/// Attributes that were all read without an error.
pub open spec fn sound_attributes(attributes: Seq<(Seq<char>, Seq<char>)>) -> Seq<
    Result<(Seq<char>, Seq<char>), Seq<char>>,
> {
    attributes.map_values(
        |a: (Seq<char>, Seq<char>)| Ok::<(Seq<char>, Seq<char>), Seq<char>>(a),
    )
}

/// Calls `BytesStart::attributes` on the tag with the given name and what follows it. Claimed: the
/// attributes depend on the two alone, and attributes in plain form are read as what they are.
#[verifier::external_body]
fn start_attributes(name: &str, rest: &str) -> (r: Vec<Result<(String, String), String>>)
    ensures
        raw_attributes(r@) == tag_attributes(name@, rest@),
        forall|attributes: Seq<(Seq<char>, Seq<char>)>|
            are_attributes(attributes) && is_name(name@) && rest@ == #[trigger] attributes_text(
                attributes,
            ) ==> raw_attributes(r@) == sound_attributes(attributes),
{
    let tag = BytesStart::from_content(format!("{name}{rest}"), name.len());
    let lossy = |bytes: &[u8]| String::from_utf8_lossy(bytes).into_owned();
    tag.attributes()
        .map(|a| a.map(|a| (lossy(a.key.0), lossy(&a.value))).map_err(|e| e.to_string()))
        .collect()
}

/// Whether a text was read without an error.
pub open spec fn is_read_as(result: Result<String, String>, text: Seq<char>) -> bool {
    result matches Ok(read) && read@ == text
}

/// The value that an attribute has once it is normalized, or what is wrong with it.
pub uninterp spec fn normalized(value: Seq<char>) -> Result<Seq<char>, Seq<char>>;

/// Calls `Attribute::normalized_value` with `XmlVersion::Implicit1_0`. Claimed: the result depends
/// on the raw value alone, and a value that was escaped is read as it was.
#[verifier::external_body]
fn normalize_value(value: &str) -> (r: Result<String, String>)
    ensures
        error::outcome(r) == normalized(value@),
        forall|text: Seq<char>|
            value@ == #[trigger] escaped_attribute(text) ==> is_read_as(r, text),
{
    let attribute = Attribute { key: QName(b""), value: Cow::Borrowed(value.as_bytes()) };
    match attribute.normalized_value(XmlVersion::Implicit1_0) {
        Ok(text) => Ok(text.into_owned()),
        Err(e) => Err(e.to_string()),
    }
}

/// What a text is once its references are replaced, or what is wrong with one of them.
pub uninterp spec fn unescaped(text: Seq<char>) -> Result<Seq<char>, Seq<char>>;

/// Calls `quick_xml::escape::unescape`. Claimed: the result depends on the text alone, and a
/// reference that was written for a character is read as that character.
#[verifier::external_body]
fn unescape_text(text: &str) -> (r: Result<String, String>)
    ensures
        error::outcome(r) == unescaped(text@),
        forall|c: char|
            (#[trigger] text_entity(c) matches Some(entity) && text@ == reference(entity))
                ==> is_read_as(r, seq![c]),
{
    match unescape(text) {
        Ok(text) => Ok(text.into_owned()),
        Err(e) => Err(e.to_string()),
    }
}

// ---------------------------------------------------------------------------------------------
// Tokens
// ---------------------------------------------------------------------------------------------

/// An attribute of a start tag.
#[derive(Debug, PartialEq, Eq)]
pub struct TagAttribute {
    /// The key as written.
    pub key: String,
    /// The value as written.
    pub value: String,
    /// The namespace of the key.
    pub namespace: Resolution,
    /// The local part of the key.
    pub local: String,
    /// The normalized value, or what is wrong with it.
    pub normalized: Result<String, String>,
}

/// The mathematical form of a [`TagAttribute`].
pub struct TagAttributeView {
    /// See [`TagAttribute::key`].
    pub key: Seq<char>,
    /// See [`TagAttribute::value`].
    pub value: Seq<char>,
    /// See [`TagAttribute::namespace`].
    pub namespace: ResolutionView,
    /// See [`TagAttribute::local`].
    pub local: Seq<char>,
    /// See [`TagAttribute::normalized`].
    pub normalized: Result<Seq<char>, Seq<char>>,
}

impl View for TagAttribute {
    type V = TagAttributeView;

    open spec fn view(&self) -> TagAttributeView {
        TagAttributeView {
            key: self.key@,
            value: self.value@,
            namespace: self.namespace@,
            local: self.local@,
            normalized: error::outcome(self.normalized),
        }
    }
}

/// A start tag with its names resolved.
#[derive(Debug, PartialEq, Eq)]
pub struct StartTag {
    /// The name as written.
    pub name: String,
    /// The namespace of the name.
    pub namespace: Resolution,
    /// The local part of the name.
    pub local: String,
    /// The attributes; for each that could not be read, what is wrong with it.
    pub attributes: Vec<Result<TagAttribute, String>>,
}

/// The mathematical form of a [`StartTag`].
pub struct StartTagView {
    /// See [`StartTag::name`].
    pub name: Seq<char>,
    /// See [`StartTag::namespace`].
    pub namespace: ResolutionView,
    /// See [`StartTag::local`].
    pub local: Seq<char>,
    /// See [`StartTag::attributes`].
    pub attributes: Seq<Result<TagAttributeView, Seq<char>>>,
}

/// The mathematical form of the attributes of a tag.
pub open spec fn attributes_view(attributes: Seq<Result<TagAttribute, String>>) -> Seq<
    Result<TagAttributeView, Seq<char>>,
> {
    attributes.map_values(|a: Result<TagAttribute, String>| error::outcome(a))
}

impl View for StartTag {
    type V = StartTagView;

    open spec fn view(&self) -> StartTagView {
        StartTagView {
            name: self.name@,
            namespace: self.namespace@,
            local: self.local@,
            attributes: attributes_view(self.attributes@),
        }
    }
}

/// What a token is.
#[derive(Debug, PartialEq, Eq)]
pub enum TokenKind {
    /// A start tag.
    Start(StartTag),
    /// An end tag.
    End,
    /// Character data, with references replaced.
    Text(String),
    /// Something that carries no data.
    Other,
    /// Something that is no XML, and why.
    Malformed(String),
}

/// The mathematical form of a [`TokenKind`].
pub enum KindView {
    /// See [`TokenKind::Start`].
    Start(StartTagView),
    /// See [`TokenKind::End`].
    End,
    /// See [`TokenKind::Text`].
    Text(Seq<char>),
    /// See [`TokenKind::Other`].
    Other,
    /// See [`TokenKind::Malformed`].
    Malformed(Seq<char>),
}

impl View for TokenKind {
    type V = KindView;

    open spec fn view(&self) -> KindView {
        match self {
            TokenKind::Start(tag) => KindView::Start(tag@),
            TokenKind::End => KindView::End,
            TokenKind::Text(text) => KindView::Text(text@),
            TokenKind::Other => KindView::Other,
            TokenKind::Malformed(message) => KindView::Malformed(message@),
        }
    }
}

/// A piece of XML text.
#[derive(Debug, PartialEq, Eq)]
pub struct XmlToken {
    /// What it is.
    pub kind: TokenKind,
    /// Its first byte.
    pub start: usize,
    /// The first byte after it.
    pub end: usize,
}

/// The mathematical form of an [`XmlToken`].
pub struct TokenView {
    /// See [`XmlToken::kind`].
    pub kind: KindView,
    /// See [`XmlToken::start`].
    pub start: nat,
    /// See [`XmlToken::end`].
    pub end: nat,
}

impl View for XmlToken {
    type V = TokenView;

    open spec fn view(&self) -> TokenView {
        TokenView { kind: self.kind@, start: self.start as nat, end: self.end as nat }
    }
}

/// The mathematical form of a list of tokens.
pub open spec fn tokens_view(tokens: Seq<XmlToken>) -> Seq<TokenView> {
    tokens.map_values(|t: XmlToken| t@)
}

/// An attribute with its key resolved in a scope and its value normalized.
pub open spec fn attribute_in(
    scope: Seq<(Seq<char>, Seq<char>)>,
    attribute: Result<(Seq<char>, Seq<char>), Seq<char>>,
) -> Result<TagAttributeView, Seq<char>> {
    match attribute {
        Ok((key, value)) => Ok(
            TagAttributeView {
                key,
                value,
                namespace: resolved(scope, key, false),
                local: local_part(key),
                normalized: normalized(value),
            },
        ),
        Err(message) => Err(message),
    }
}

/// A start tag with its names resolved in a scope.
pub open spec fn tag_in(
    scope: Seq<(Seq<char>, Seq<char>)>,
    name: Seq<char>,
    rest: Seq<char>,
) -> StartTagView {
    StartTagView {
        name,
        namespace: resolved(scope, name, true),
        local: local_part(name),
        attributes: tag_attributes(name, rest).map_values(
            |a: Result<(Seq<char>, Seq<char>), Seq<char>>| attribute_in(scope, a),
        ),
    }
}

/// What the step to a state read, as a token.
pub open spec fn kind_of(step: XmlStep) -> KindView {
    match step.outcome {
        Ok(EventView::Start(name, rest)) => KindView::Start(
            tag_in(scope_in(step.open), name, rest),
        ),
        Ok(EventView::End) => KindView::End,
        Ok(EventView::Text(text)) => KindView::Text(text),
        Ok(EventView::Reference(entity)) => match unescaped("&"@ + entity + ";"@) {
            Ok(text) => KindView::Text(text),
            Err(message) => KindView::Malformed(message),
        },
        Ok(_) => KindView::Other,
        Err(message) => KindView::Malformed(message),
    }
}

/// The message of the token that stands where elements are nested too deeply.
pub open spec fn too_deep() -> Seq<char> {
    "elements are nested too deeply"@
}

/// The tokens that are read from the state at `i` on: up to the end, the first error of the lexer,
/// or the place where elements are nested too deeply.
pub open spec fn tokens_from(trace: Seq<XmlStep>, i: int) -> Seq<TokenView>
    decreases trace.len() - i,
{
    if i < 0 || i + 1 >= trace.len() {
        Seq::empty()
    } else if trace[i].open.len() >= MAX_DEPTH {
        seq![
            TokenView {
                kind: KindView::Malformed(too_deep()),
                start: trace[i].position,
                end: trace[i].position,
            },
        ]
    } else if trace[i + 1].outcome == Ok::<EventView, Seq<char>>(EventView::Eof) {
        Seq::empty()
    } else {
        seq![
            TokenView {
                kind: kind_of(trace[i + 1]),
                start: trace[i].position,
                end: trace[i + 1].position,
            },
        ] + tokens_from(trace, i + 1)
    }
}

/// Whether tokens lie within `length` bytes of text.
pub open spec fn are_within(tokens: Seq<TokenView>, length: nat) -> bool {
    forall|i: int|
        0 <= i < tokens.len() ==> (#[trigger] tokens[i]).start <= tokens[i].end <= length
}

/// Whether plain attributes of a tag are read as what they are.
pub open spec fn reads_attributes(name: Seq<char>, rest: Seq<char>) -> bool {
    forall|attributes: Seq<(Seq<char>, Seq<char>)>|
        are_attributes(attributes) && is_name(name) && rest == #[trigger] attributes_text(
            attributes,
        ) ==> tag_attributes(name, rest) == sound_attributes(attributes)
}

/// Whether the value of an attribute, if it was escaped, is read as it was.
pub open spec fn reads_value(value: Seq<char>) -> bool {
    forall|text: Seq<char>|
        value == #[trigger] escaped_attribute(text) ==> normalized(value) == Ok::<
            Seq<char>,
            Seq<char>,
        >(text)
}

/// Whether a reference, if it was written for a character, is read as that character.
pub open spec fn reads_reference(entity: Seq<char>) -> bool {
    forall|c: char|
        (#[trigger] text_entity(c)) == Some(entity) ==> unescaped("&"@ + entity + ";"@) == Ok::<
            Seq<char>,
            Seq<char>,
        >(seq![c])
}

/// Whether what was read in a step is taken for what it was before it was written: attributes,
/// their values and references.
pub open spec fn step_read(step: XmlStep) -> bool {
    match step.outcome {
        Ok(EventView::Start(name, rest)) => {
            &&& reads_attributes(name, rest)
            &&& forall|i: int|
                0 <= i < tag_attributes(name, rest).len() ==> ((#[trigger] tag_attributes(
                    name,
                    rest,
                )[i]) matches Ok((_, value)) ==> reads_value(value))
        },
        Ok(EventView::Reference(entity)) => reads_reference(entity),
        _ => true,
    }
}

/// Whether the elements are never nested too deeply up to the state at `i`.
pub open spec fn is_reached(trace: Seq<XmlStep>, i: int) -> bool {
    forall|j: int| 0 <= j <= i ==> (#[trigger] trace[j]).open.len() < MAX_DEPTH
}

/// Whether the lexer does on a text what it should, and all that it comes to is read as it was
/// written.
pub open spec fn is_sound(xml: Seq<char>) -> bool {
    &&& is_trace(lexed(xml), xml)
    &&& forall|i: int|
        0 <= i < lexed(xml).len() - 1 && is_reached(lexed(xml), i) ==> step_read(
            #[trigger] lexed(xml)[i + 1],
        )
}

/// The start tag that the reader has just read.
fn read_start_tag(reader: &NsReader<&[u8]>, name: String, rest: String) -> (r: StartTag)
    requires
        reader_trace(*reader).len() > 0,
        reader_trace(*reader)[0].outcome matches Ok(event) && event is Start,
    ensures
        r@ == tag_in(scope_in(reader_trace(*reader)[0].open), name@, rest@),
        reads_attributes(name@, rest@),
        forall|i: int|
            0 <= i < tag_attributes(name@, rest@).len() ==> ((#[trigger] tag_attributes(
                name@,
                rest@,
            )[i]) matches Ok((_, value)) ==> reads_value(value)),
{
    let ghost scope = scope_in(reader_trace(*reader)[0].open);
    let raw = start_attributes(name.as_str(), rest.as_str());
    let ghost read = raw_attributes(raw@);
    let mut attributes: Vec<Result<TagAttribute, String>> = Vec::new();
    let mut i: usize = 0;
    while i < raw.len()
        invariant
            i <= raw@.len(),
            read == raw_attributes(raw@),
            scope == scope_in(reader_trace(*reader)[0].open),
            reader_trace(*reader).len() > 0,
            reader_trace(*reader)[0].outcome matches Ok(event) && event is Start,
            attributes@.len() == i,
            forall|j: int|
                0 <= j < i ==> error::outcome(#[trigger] attributes@[j]) == attribute_in(
                    scope,
                    read[j],
                ),
            forall|j: int|
                0 <= j < i ==> ((#[trigger] read[j]) matches Ok((_, value)) ==> reads_value(value)),
        decreases raw@.len() - i,
    {
        assert(read[i as int] == raw_attribute(raw@[i as int]));
        let attribute = match &raw[i] {
            Ok((key, value)) => {
                let (namespace, local) = resolve_name(reader, key.as_str(), false);
                let normalized = normalize_value(value.as_str());
                Ok(
                    TagAttribute {
                        key: key.clone(),
                        value: value.clone(),
                        namespace,
                        local,
                        normalized,
                    },
                )
            },
            Err(message) => Err(message.clone()),
        };
        attributes.push(attribute);
        i = i + 1;
    }
    let (namespace, local) = resolve_name(reader, name.as_str(), true);
    assert(attributes_view(attributes@) =~= tag_attributes(name@, rest@).map_values(
        |a: Result<(Seq<char>, Seq<char>), Seq<char>>| attribute_in(scope, a),
    ));
    StartTag { name, namespace, local, attributes }
}

/// What an event is as a token.
fn read_kind(reader: &NsReader<&[u8]>, event: XmlEvent) -> (r: TokenKind)
    requires
        reader_trace(*reader).len() > 0,
        reader_trace(*reader)[0].outcome == Ok::<EventView, Seq<char>>(event@),
    ensures
        r@ == kind_of(reader_trace(*reader)[0]),
        step_read(reader_trace(*reader)[0]),
{
    match event {
        XmlEvent::Start(name, rest) => TokenKind::Start(read_start_tag(reader, name, rest)),
        XmlEvent::End => TokenKind::End,
        XmlEvent::Text(text) => TokenKind::Text(text),
        XmlEvent::Reference(entity) => {
            let outcome = unescape_text(join3("&", entity.as_str(), ";").as_str());
            proof {
                reveal_strlit("&");
                reveal_strlit(";");
                assert(reference(entity@) =~= "&"@ + entity@ + ";"@);
                assert forall|c: char|
                    (#[trigger] text_entity(c)) == Some(entity@) implies unescaped(
                    "&"@ + entity@ + ";"@,
                ) == Ok::<Seq<char>, Seq<char>>(seq![c]) by {
                    assert(is_read_as(outcome, seq![c]));
                }
            }
            match outcome {
                Ok(text) => TokenKind::Text(text),
                Err(message) => TokenKind::Malformed(message),
            }
        },
        XmlEvent::Other | XmlEvent::Eof => TokenKind::Other,
    }
}

/// The tokens of an XML text.
pub fn lex(xml: &str) -> (r: Vec<XmlToken>)
    ensures
        tokens_view(r@) == tokens_from(lexed(xml@), 0),
        are_within(tokens_view(r@), encode_utf8(xml@).len()),
        is_sound(xml@),
{
    let length: usize = xml.as_bytes().len();
    let mut reader = open_reader(xml);
    let mut tokens: Vec<XmlToken> = Vec::new();
    let mut depth: usize = 0;
    let ghost trace = lexed(xml@);
    let ghost mut i: int = 0;
    assert(trace.skip(0) =~= trace);
    assert(tokens_view(tokens@) + tokens_from(trace, 0) =~= tokens_from(trace, 0));
    loop
        invariant
            is_trace(trace, xml@),
            0 <= i < trace.len() - 1,
            reader_trace(reader) == trace.skip(i),
            depth == trace[i].open.len(),
            depth <= MAX_DEPTH,
            length == encode_utf8(xml@).len(),
            tokens_from(trace, 0) == tokens_view(tokens@) + tokens_from(trace, i),
            are_within(tokens_view(tokens@), length as nat),
            trace == lexed(xml@),
            is_reached(trace, i - 1),
            forall|j: int| 0 <= j < i ==> step_read(#[trigger] trace[j + 1]),
        decreases trace.len() - i,
    {
        let ghost before = tokens@;
        assert(trace[i].position <= length);
        assert(steps_at(trace, i));
        assert(trace[i + 1].position <= length);
        let start: usize = source_position(&reader) as usize;
        if depth >= MAX_DEPTH {
            tokens.push(
                XmlToken {
                    kind: TokenKind::Malformed("elements are nested too deeply".to_owned()),
                    start,
                    end: start,
                },
            );
            assert(tokens_view(tokens@) =~= tokens_view(before) + tokens_from(trace, i));
            return tokens;
        }
        let outcome = next_event(&mut reader);
        assert(trace.skip(i).drop_first() =~= trace.skip(i + 1));
        let end: usize = source_position(&reader) as usize;
        match outcome {
            Err(message) => {
                tokens.push(XmlToken { kind: TokenKind::Malformed(message), start, end });
                assert(tokens_from(trace, i + 1) =~= Seq::<TokenView>::empty());
                assert(tokens_view(tokens@) =~= tokens_view(before) + tokens_from(trace, i));
                return tokens;
            },
            Ok(XmlEvent::Eof) => {
                assert(tokens_view(before) + tokens_from(trace, i) =~= tokens_view(before));
                return tokens;
            },
            Ok(event) => {
                match &event {
                    XmlEvent::Start(_, _) => {
                        depth = depth + 1;
                    },
                    XmlEvent::End => {
                        depth = depth - 1;
                    },
                    _ => {},
                }
                let kind = read_kind(&reader, event);
                tokens.push(XmlToken { kind, start, end });
                proof {
                    assert(tokens_view(tokens@) =~= tokens_view(before).push(
                        tokens@.last()@,
                    ));
                    assert(tokens_view(before) + tokens_from(trace, i) =~= tokens_view(tokens@)
                        + tokens_from(trace, i + 1));
                    i = i + 1;
                }
            },
        }
    }
}

} // verus!
