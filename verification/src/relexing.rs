//! Lexing what was written: each element comes back as it was.

use vstd::prelude::*;

use crate::error::ErrorView;
use crate::packet;
use crate::packet::XmpSourceSpan;
use crate::reader;
use crate::reader::{Shape, ShapeAttr};
use crate::tree;
use crate::tree::{AttrView, ElementView};
use crate::writer;
use crate::writer::Written;
use crate::xml;
use crate::xml::{EventView, KindView, XmlStep, MAX_DEPTH};

verus! {

// ---------------------------------------------------------------------------------------------
// Elements
// ---------------------------------------------------------------------------------------------

/// A scope: prefixes with their URIs.
pub type Scope = Seq<(Seq<char>, Seq<char>)>;

/// The scope inside an element.
pub open spec fn inner_scope(scope: Scope, w: Written) -> Scope {
    scope + xml::declarations(writer::escaped_attrs(w.attrs))
}

/// The namespace that a resolution gives, if it gives one.
pub open spec fn uri_of(resolution: xml::ResolutionView) -> Option<Seq<char>> {
    match resolution {
        xml::ResolutionView::Bound(uri) => Some(uri),
        _ => None,
    }
}

/// The attributes that a reader finds among written ones, without the declarations.
pub open spec fn found_attrs(scope: Scope, attrs: Seq<(Seq<char>, Seq<char>)>) -> Seq<ShapeAttr>
    decreases attrs.len(),
{
    if attrs.len() == 0 {
        Seq::empty()
    } else {
        let before = found_attrs(scope, attrs.drop_last());
        let (key, value) = attrs.last();
        if xml::declared_prefix(key) is Some {
            before
        } else {
            before.push(
                ShapeAttr {
                    ns: uri_of(xml::resolved(scope, key, false)),
                    local: xml::local_part(key),
                    value,
                },
            )
        }
    }
}

/// The element that a reader finds where one was written in a scope.
pub open spec fn found(scope: Scope, w: Written) -> Shape
    decreases w,
{
    let inner = inner_scope(scope, w);
    Shape {
        ns: uri_of(xml::resolved(inner, w.name, true)),
        local: xml::local_part(w.name),
        attrs: found_attrs(inner, w.attrs),
        text: w.text,
        children: all_found(inner, w.children),
    }
}

/// The elements that a reader finds where some were written in a scope.
pub open spec fn all_found(scope: Scope, s: Seq<Written>) -> Seq<Shape>
    decreases s,
{
    if s.len() == 0 {
        Seq::empty()
    } else {
        seq![found(scope, s[0])] + all_found(scope, s.drop_first())
    }
}

/// Whether the names of attributes are declared in a scope.
pub open spec fn are_resolvable(scope: Scope, attrs: Seq<(Seq<char>, Seq<char>)>) -> bool {
    forall|i: int|
        0 <= i < attrs.len() ==> xml::declared_prefix((#[trigger] attrs[i]).0) is Some || !(
        xml::resolved(scope, attrs[i].0, false) is Unknown)
}

/// Whether an element has plain markup with names that are declared in its scope.
pub open spec fn is_plain(scope: Scope, w: Written) -> bool
    decreases w,
{
    let inner = inner_scope(scope, w);
    &&& xml::is_name(w.name)
    &&& xml::are_attributes(writer::escaped_attrs(w.attrs))
    &&& xml::are_declarable(xml::declarations(writer::escaped_attrs(w.attrs)))
    &&& !(xml::resolved(inner, w.name, true) is Unknown)
    &&& are_resolvable(inner, w.attrs)
    &&& are_plain(inner, w.children)
}

/// Whether elements have plain markup with names that are declared in their scope.
pub open spec fn are_plain(scope: Scope, s: Seq<Written>) -> bool
    decreases s,
{
    if s.len() == 0 {
        true
    } else {
        is_plain(scope, s[0]) && are_plain(scope, s.drop_first())
    }
}

/// How deeply elements are nested in an element, itself counted.
pub open spec fn depth(w: Written) -> nat
    decreases w,
{
    1 + depth_among(w.children)
}

/// How deeply elements are nested in some elements, these counted.
pub open spec fn depth_among(s: Seq<Written>) -> nat
    decreases s,
{
    if s.len() == 0 {
        0
    } else if depth(s[0]) > depth_among(s.drop_first()) {
        depth(s[0])
    } else {
        depth_among(s.drop_first())
    }
}

// ---------------------------------------------------------------------------------------------
// Lexing what was written
// ---------------------------------------------------------------------------------------------

/// What is made of the tokens that the lexer reads from the state at `i` on.
spec fn built(
    trace: Seq<XmlStep>,
    i: int,
    base: int,
    open: Seq<ElementView>,
    root: Option<ElementView>,
) -> Result<ElementView, ErrorView> {
    tree::assembled(xml::tokens_from(trace, i), 0, base, open, root)
}

/// Whether the lexer is on its way through a text and `rest` is left.
spec fn is_at(xml: Seq<char>, i: int, rest: Seq<char>) -> bool {
    let trace = xml::lexed(xml);
    &&& xml::is_sound(xml)
    &&& 0 <= i < trace.len() - 1
    &&& xml::is_reached(trace, i)
    &&& !trace[i].closing
    &&& trace[i].rest == rest
}

/// Assembling does not depend on tokens that were passed.
proof fn lemma_assembled_skip(
    tokens: Seq<xml::TokenView>,
    i: int,
    by: int,
    base: int,
    open: Seq<ElementView>,
    root: Option<ElementView>,
)
    requires
        0 <= by <= i <= tokens.len(),
    ensures
        tree::assembled(tokens, i, base, open, root) == tree::assembled(
            tokens.skip(by),
            i - by,
            base,
            open,
            root,
        ),
    decreases tokens.len() - i,
{
    if i < tokens.len() {
        let rest = tokens.skip(by);
        assert(rest[i - by] == tokens[i]);
        let end = base + tokens[i].end;
        match tokens[i].kind {
            KindView::Malformed(_) => {},
            KindView::Other => {
                lemma_assembled_skip(tokens, i + 1, by, base, open, root);
            },
            KindView::Start(tag) => {
                match tree::started(tag, packet::span(base + tokens[i].start, end)) {
                    Err(_) => {},
                    Ok(e) => {
                        lemma_assembled_skip(tokens, i + 1, by, base, open.push(e), root);
                    },
                }
            },
            KindView::Text(text) => {
                if open.len() == 0 {
                    lemma_assembled_skip(tokens, i + 1, by, base, open, root);
                } else {
                    lemma_assembled_skip(
                        tokens,
                        i + 1,
                        by,
                        base,
                        open.drop_last().push(tree::with_text(open.last(), text)),
                        root,
                    );
                }
            },
            KindView::End => {
                if open.len() == 1 {
                    if root is None {
                        lemma_assembled_skip(
                            tokens,
                            i + 1,
                            by,
                            base,
                            Seq::empty(),
                            Some(tree::closed(open.last(), end)),
                        );
                    }
                } else if open.len() > 1 {
                    let outer = open.drop_last();
                    lemma_assembled_skip(
                        tokens,
                        i + 1,
                        by,
                        base,
                        outer.drop_last().push(
                            tree::with_child(outer.last(), tree::closed(open.last(), end)),
                        ),
                        root,
                    );
                }
            },
        }
    }
}

/// The token that the lexer reads in the state at `i`.
spec fn token_at(trace: Seq<XmlStep>, i: int) -> xml::TokenView {
    xml::TokenView {
        kind: xml::kind_of(trace[i + 1]),
        start: trace[i].position,
        end: trace[i + 1].position,
    }
}

/// The first token of what the lexer reads, and the tokens after it.
proof fn lemma_first_token(
    trace: Seq<XmlStep>,
    i: int,
    base: int,
    open: Seq<ElementView>,
    root: Option<ElementView>,
)
    requires
        0 <= i < trace.len() - 1,
        trace[i].open.len() < MAX_DEPTH,
        trace[i + 1].outcome != Ok::<EventView, Seq<char>>(EventView::Eof),
    ensures
        xml::tokens_from(trace, i).len() > 0,
        xml::tokens_from(trace, i)[0] == token_at(trace, i),
        tree::assembled(xml::tokens_from(trace, i), 1, base, open, root) == built(
            trace,
            i + 1,
            base,
            open,
            root,
        ),
{
    let tokens = xml::tokens_from(trace, i);
    assert(tokens.skip(1) =~= xml::tokens_from(trace, i + 1));
    lemma_assembled_skip(tokens, 1, 1, base, open, root);
}

/// After a step that read an event the lexer is on its way.
proof fn lemma_goes_on(xml: Seq<char>, i: int, rest: Seq<char>)
    requires
        is_at(xml, i, rest),
        xml::lexed(xml)[i + 1].outcome is Ok,
        xml::lexed(xml)[i + 1].outcome != Ok::<EventView, Seq<char>>(EventView::Eof),
        !xml::lexed(xml)[i + 1].closing,
        xml::lexed(xml)[i + 1].open.len() < MAX_DEPTH,
    ensures
        is_at(xml, i + 1, xml::lexed(xml)[i + 1].rest),
{
    assert(xml::steps_at(xml::lexed(xml), i));
}

/// The number of characters at the front of a text that are written as they are.
spec fn plain_run(text: Seq<char>) -> int
    decreases text.len(),
{
    if text.len() == 0 || xml::text_entity(text[0]) is Some {
        0
    } else {
        1 + plain_run(text.drop_first())
    }
}

/// A text begins in its written form with the characters that are written as they are; what follows
/// is a reference or nothing.
proof fn lemma_plain_run(text: Seq<char>)
    ensures
        0 <= plain_run(text) <= text.len(),
        xml::escaped_text(text) == text.take(plain_run(text)) + xml::escaped_text(
            text.skip(plain_run(text)),
        ),
        forall|k: int|
            0 <= k < plain_run(text) ==> xml::text_entity(#[trigger] text[k]) is None,
        plain_run(text) < text.len() ==> xml::text_entity(text[plain_run(text)]) is Some,
    decreases text.len(),
{
    if text.len() == 0 || xml::text_entity(text[0]) is Some {
        assert(text.skip(0) =~= text);
        assert(text.take(0) + xml::escaped_text(text) =~= xml::escaped_text(text));
    } else {
        let rest = text.drop_first();
        lemma_plain_run(rest);
        let n = plain_run(text);
        assert(rest.skip(n - 1) =~= text.skip(n));
        assert(text.take(n) =~= seq![text[0]] + rest.take(n - 1));
        assert(xml::escaped_text(text) =~= text.take(n) + xml::escaped_text(text.skip(n)));
        assert forall|k: int| 0 <= k < n implies xml::text_entity(#[trigger] text[k]) is None by {
            if k > 0 {
                assert(text[k] == rest[k - 1]);
            }
        }
    }
}

/// The entities that stand for characters in character data hold no markup.
proof fn lemma_entity(c: char)
    ensures
        xml::text_entity(c) matches Some(entity) ==> forall|k: int|
            0 <= k < entity.len() ==> #[trigger] entity[k] != '<' && entity[k] != '&' && entity[k]
                != ';',
{
    reveal_strlit("amp");
    reveal_strlit("lt");
    reveal_strlit("gt");
    reveal_strlit("#xD");
}

/// Character data that was written is read back into the innermost open element.
proof fn lemma_text(
    xml: Seq<char>,
    i: int,
    text: Seq<char>,
    tail: Seq<char>,
    base: int,
    open: Seq<ElementView>,
    root: Option<ElementView>,
) -> (next: int)
    requires
        is_at(xml, i, xml::escaped_text(text) + tail),
        xml::lexed(xml)[i].position > 0,
        tail.len() > 0,
        tail[0] == '<',
        open.len() > 0,
    ensures
        i <= next,
        is_at(xml, next, tail),
        xml::lexed(xml)[next].position > 0,
        xml::lexed(xml)[next].open == xml::lexed(xml)[i].open,
        built(xml::lexed(xml), i, base, open, root) == built(
            xml::lexed(xml),
            next,
            base,
            open.drop_last().push(tree::with_text(open.last(), text)),
            root,
        ),
    decreases text.len(),
{
    let trace = xml::lexed(xml);
    if text.len() == 0 {
        assert(xml::escaped_text(text) + tail =~= tail);
        assert(open.last().text + text =~= open.last().text);
        assert(tree::with_text(open.last(), text) == open.last());
        assert(open.drop_last().push(open.last()) =~= open);
        i
    } else {
        assert(xml::steps_at(trace, i));
        let n = if xml::text_entity(text[0]) is Some {
            1
        } else {
            plain_run(text)
        };
        lemma_plain_run(text);
        let read = text.take(n);
        let rest = xml::escaped_text(text.skip(n)) + tail;
        if xml::text_entity(text[0]) is Some {
            let entity = xml::text_entity(text[0])->Some_0;
            lemma_entity(text[0]);
            assert(text.skip(1) =~= text.drop_first());
            assert(trace[i].rest =~= xml::reference(entity) + rest);
            assert(xml::at_reference(trace[i].rest, entity, rest));
            assert(xml::step_read(trace[i + 1]));
            assert(read =~= seq![text[0]]);
        } else {
            if text.skip(n).len() > 0 {
                let c = text[n];
                assert(text.skip(n)[0] == c);
                assert(xml::escaped_text(text.skip(n))[0] == '&');
            } else {
                assert(rest =~= tail);
            }
            assert(trace[i].rest =~= read + rest);
            assert forall|k: int| 0 <= k < read.len() implies #[trigger] read[k] != '<' && read[k]
                != '&' by {
                assert(xml::text_entity(text[k]) is None);
            }
            assert(xml::at_text(trace[i].rest, read, rest));
        }
        lemma_goes_on(xml, i, trace[i].rest);
        let after = open.drop_last().push(tree::with_text(open.last(), read));
        assert(xml::kind_of(trace[i + 1]) == KindView::Text(read));
        lemma_first_token(trace, i, base, after, root);
        let next = lemma_text(xml, i + 1, text.skip(n), tail, base, after, root);
        assert(read + text.skip(n) =~= text);
        assert((open.last().text + read) + text.skip(n) =~= open.last().text + text);
        assert(after.drop_last() =~= open.drop_last());
        next
    }
}

/// The attributes of a tag as the lexer gives them, where some were written in a scope.
spec fn read_attrs(scope: Scope, attrs: Seq<(Seq<char>, Seq<char>)>) -> Seq<
    Result<xml::TagAttributeView, Seq<char>>,
> {
    writer::escaped_attrs(attrs).map_values(
        |a: (Seq<char>, Seq<char>)| xml::attribute_in(scope, Ok(a)),
    )
}

/// Attributes that were written are found again.
proof fn lemma_attrs(scope: Scope, attrs: Seq<(Seq<char>, Seq<char>)>, place: XmpSourceSpan)
    requires
        are_resolvable(scope, attrs),
        forall|i: int|
            0 <= i < attrs.len() ==> xml::reads_value(
                xml::escaped_attribute((#[trigger] attrs[i]).1),
            ),
    ensures
        tree::sorted_attributes(read_attrs(scope, attrs), place) matches Ok((found, _))
            && reader::shape_attrs(found) == found_attrs(scope, attrs),
    decreases attrs.len(),
{
    let all = read_attrs(scope, attrs);
    if attrs.len() == 0 {
        assert(reader::shape_attrs(Seq::empty()) =~= Seq::<ShapeAttr>::empty());
    } else {
        let before = attrs.drop_last();
        let (key, value) = attrs.last();
        assert forall|i: int| 0 <= i < before.len() implies xml::reads_value(
            xml::escaped_attribute((#[trigger] before[i]).1),
        ) by {
            assert(before[i] == attrs[i]);
        }
        assert forall|i: int| 0 <= i < before.len() implies xml::declared_prefix(
            (#[trigger] before[i]).0,
        ) is Some || !(xml::resolved(scope, before[i].0, false) is Unknown) by {
            assert(before[i] == attrs[i]);
        }
        lemma_attrs(scope, before, place);
        assert(all.drop_last() =~= read_attrs(scope, before));
        assert(attrs[attrs.len() - 1] == (key, value));
        assert(xml::reads_value(xml::escaped_attribute(value)));
        assert(all.last() == xml::attribute_in(scope, Ok((key, xml::escaped_attribute(value)))));
        let a = all.last()->Ok_0;
        assert(a.normalized == Ok::<Seq<char>, Seq<char>>(value));
        let (found, _) = tree::sorted_attributes(all.drop_last(), place)->Ok_0;
        if xml::declared_prefix(key) is None {
            let one = AttrView {
                prefix: xml::prefix_part(key),
                ns: uri_of(xml::resolved(scope, key, false)),
                local: xml::local_part(key),
                value,
            };
            assert(reader::shape_attrs(found.push(one)) =~= reader::shape_attrs(found).push(
                ShapeAttr { ns: one.ns, local: one.local, value: one.value },
            ));
        }
    }
}

/// A start tag that was written opens the element that it was written for.
proof fn lemma_start(
    xml: Seq<char>,
    i: int,
    scope: Scope,
    w: Written,
    tail: Seq<char>,
    base: int,
    open: Seq<ElementView>,
    root: Option<ElementView>,
) -> (e: ElementView)
    requires
        is_at(xml, i, writer::start_tag(w) + tail),
        scope == xml::scope_in(xml::lexed(xml)[i].open),
        is_plain(scope, w),
        xml::lexed(xml)[i].open.len() + 1 < MAX_DEPTH,
    ensures
        is_at(xml, i + 1, tail),
        xml::lexed(xml)[i + 1].position > 0,
        xml::lexed(xml)[i + 1].open == xml::lexed(xml)[i].open.push(
            xml::OpenElement { name: w.name, scope: inner_scope(scope, w) },
        ),
        built(xml::lexed(xml), i, base, open, root) == built(
            xml::lexed(xml),
            i + 1,
            base,
            open.push(e),
            root,
        ),
        e.ns == found(scope, w).ns,
        e.local == found(scope, w).local,
        reader::shape_attrs(e.attrs) == found(scope, w).attrs,
        e.text.len() == 0,
        e.children.len() == 0,
{
    let trace = xml::lexed(xml);
    let escaped = writer::escaped_attrs(w.attrs);
    let inner = inner_scope(scope, w);
    assert(xml::steps_at(trace, i));
    assert(trace[i].rest =~= seq!['<'] + w.name + xml::attributes_text(escaped) + seq!['>'] + tail);
    assert(xml::at_start_tag(trace[i].rest, w.name, escaped, tail));
    lemma_goes_on(xml, i, trace[i].rest);
    assert(xml::step_read(trace[i + 1]));
    let rest = xml::attributes_text(escaped);
    assert(xml::tag_attributes(w.name, rest) == xml::sound_attributes(escaped));
    assert forall|k: int| 0 <= k < w.attrs.len() implies xml::reads_value(
        xml::escaped_attribute((#[trigger] w.attrs[k]).1),
    ) by {
        assert(xml::tag_attributes(w.name, rest)[k] == Ok::<(Seq<char>, Seq<char>), Seq<char>>(
            escaped[k],
        ));
    }
    let tag = xml::tag_in(inner, w.name, rest);
    assert(tag.attributes =~= read_attrs(inner, w.attrs));
    assert(xml::kind_of(trace[i + 1]) == KindView::Start(tag));
    let place = packet::span(base + trace[i].position, base + trace[i + 1].position);
    lemma_attrs(inner, w.attrs, place);
    let e = tree::started(tag, place)->Ok_0;
    lemma_first_token(trace, i, base, open.push(e), root);
    e
}

/// An end tag that was written closes the innermost open element.
proof fn lemma_end(
    xml: Seq<char>,
    i: int,
    name: Seq<char>,
    tail: Seq<char>,
    base: int,
    open: Seq<ElementView>,
    root: Option<ElementView>,
) -> (e: ElementView)
    requires
        is_at(xml, i, writer::end_tag(name) + tail),
        xml::is_name(name),
        xml::lexed(xml)[i].open.len() > 0,
        xml::lexed(xml)[i].open.last().name == name,
        xml::lexed(xml)[i].position > 0,
        open.len() > 0,
        open.len() == 1 ==> root is None,
    ensures
        is_at(xml, i + 1, tail),
        xml::lexed(xml)[i + 1].position > 0,
        xml::lexed(xml)[i + 1].open == xml::lexed(xml)[i].open.drop_last(),
        reader::shape(e) == reader::shape(open.last()),
        built(xml::lexed(xml), i, base, open, root) == built(
            xml::lexed(xml),
            i + 1,
            base,
            with_element(open.drop_last(), e),
            if open.len() == 1 {
                Some(e)
            } else {
                root
            },
        ),
{
    let trace = xml::lexed(xml);
    assert(xml::steps_at(trace, i));
    assert(trace[i].rest =~= seq!['<', '/'] + name + seq!['>'] + tail);
    assert(xml::at_end_tag(trace[i].rest, name, tail));
    lemma_goes_on(xml, i, trace[i].rest);
    let e = tree::closed(open.last(), base + trace[i + 1].position);
    let after = with_element(open.drop_last(), e);
    let rooted = if open.len() == 1 {
        Some(e)
    } else {
        root
    };
    lemma_first_token(trace, i, base, after, rooted);
    if open.len() == 1 {
        assert(after =~= Seq::empty());
    }
    e
}

/// Open elements with an element added to the innermost; none where none is open.
spec fn with_element(open: Seq<ElementView>, e: ElementView) -> Seq<ElementView> {
    if open.len() == 0 {
        open
    } else {
        open.drop_last().push(tree::with_child(open.last(), e))
    }
}

/// The shapes of elements, some before others.
proof fn lemma_shapes_add(a: Seq<ElementView>, b: Seq<ElementView>)
    ensures
        reader::shapes(a + b) == reader::shapes(a) + reader::shapes(b),
{
    reader::lemma_shapes(a);
    reader::lemma_shapes(b);
    reader::lemma_shapes(a + b);
    assert forall|k: int| 0 <= k < (a + b).len() implies reader::shapes(a + b)[k] == (
    reader::shapes(a) + reader::shapes(b))[k] by {
        assert(reader::shapes(a + b)[k] == reader::shape((a + b)[k]));
        if k < a.len() {
            assert(reader::shapes(a)[k] == reader::shape(a[k]));
        } else {
            assert(reader::shapes(b)[k - a.len()] == reader::shape(b[k - a.len()]));
        }
    }
    assert(reader::shapes(a + b) =~= reader::shapes(a) + reader::shapes(b));
}

/// An element that was written is read back.
proof fn lemma_element(
    xml: Seq<char>,
    i: int,
    scope: Scope,
    w: Written,
    tail: Seq<char>,
    base: int,
    open: Seq<ElementView>,
    root: Option<ElementView>,
) -> (r: (int, ElementView))
    requires
        is_at(xml, i, writer::rendered(w) + tail),
        scope == xml::scope_in(xml::lexed(xml)[i].open),
        is_plain(scope, w),
        xml::lexed(xml)[i].open.len() + depth(w) < MAX_DEPTH,
        open.len() == 0 ==> root is None,
    ensures
        is_at(xml, r.0, tail),
        xml::lexed(xml)[r.0].position > 0,
        xml::lexed(xml)[r.0].open == xml::lexed(xml)[i].open,
        reader::shape(r.1) == found(scope, w),
        built(xml::lexed(xml), i, base, open, root) == built(
            xml::lexed(xml),
            r.0,
            base,
            with_element(open, r.1),
            if open.len() == 0 {
                Some(r.1)
            } else {
                root
            },
        ),
    decreases w,
{
    let trace = xml::lexed(xml);
    let inner = inner_scope(scope, w);
    let closing = writer::end_tag(w.name) + tail;
    let inside = writer::rendered_all(w.children) + closing;
    let content = xml::escaped_text(w.text) + inside;
    assert(writer::rendered(w) + tail =~= writer::start_tag(w) + content);
    let e0 = lemma_start(xml, i, scope, w, content, base, open, root);
    let open0 = open.push(e0);
    if w.children.len() == 0 {
        assert(inside =~= closing);
    } else {
        lemma_rendered_front(w.children[0]);
    }
    assert(inside[0] == '<');
    let j = lemma_text(xml, i + 1, w.text, inside, base, open0, root);
    let e1 = tree::with_text(e0, w.text);
    let open1 = open.push(e1);
    assert(open0.drop_last().push(tree::with_text(open0.last(), w.text)) =~= open1);
    let (k, new) = lemma_elements(xml, j, inner, w.children, closing, base, open1, root);
    let e2 = ElementView { children: e1.children + new, ..e1 };
    let open2 = open.push(e2);
    assert(open1.drop_last().push(ElementView { children: open1.last().children + new, ..open1.last() })
        =~= open2);
    let e = lemma_end(xml, k, w.name, tail, base, open2, root);
    assert(open2.drop_last() =~= open);
    assert(trace[i].open.push(xml::OpenElement { name: w.name, scope: inner }).drop_last()
        =~= trace[i].open);
    assert(e1.children + new =~= new);
    assert(e0.text + w.text =~= w.text);
    (k + 1, e)
}

/// An element in its written form begins with markup.
proof fn lemma_rendered_front(w: Written)
    ensures
        writer::rendered(w).len() > 0,
        writer::rendered(w)[0] == '<',
{
    assert(writer::start_tag(w)[0] == '<');
}

/// Elements that were written are read back into the innermost open element.
proof fn lemma_elements(
    xml: Seq<char>,
    i: int,
    scope: Scope,
    s: Seq<Written>,
    tail: Seq<char>,
    base: int,
    open: Seq<ElementView>,
    root: Option<ElementView>,
) -> (r: (int, Seq<ElementView>))
    requires
        is_at(xml, i, writer::rendered_all(s) + tail),
        xml::lexed(xml)[i].position > 0,
        scope == xml::scope_in(xml::lexed(xml)[i].open),
        are_plain(scope, s),
        xml::lexed(xml)[i].open.len() + depth_among(s) < MAX_DEPTH,
        open.len() > 0,
    ensures
        is_at(xml, r.0, tail),
        xml::lexed(xml)[r.0].position > 0,
        xml::lexed(xml)[r.0].open == xml::lexed(xml)[i].open,
        reader::shapes(r.1) == all_found(scope, s),
        built(xml::lexed(xml), i, base, open, root) == built(
            xml::lexed(xml),
            r.0,
            base,
            open.drop_last().push(
                ElementView { children: open.last().children + r.1, ..open.last() },
            ),
            root,
        ),
    decreases s,
{
    if s.len() == 0 {
        let none = Seq::<ElementView>::empty();
        assert(writer::rendered_all(s) + tail =~= tail);
        assert(open.last().children + none =~= open.last().children);
        assert(open.drop_last().push(open.last()) =~= open);
        (i, none)
    } else {
        let rest = writer::rendered_all(s.drop_first()) + tail;
        assert(writer::rendered_all(s) + tail =~= writer::rendered(s[0]) + rest);
        let (j, e) = lemma_element(xml, i, scope, s[0], rest, base, open, root);
        let open1 = with_element(open, e);
        let (k, new) = lemma_elements(xml, j, scope, s.drop_first(), tail, base, open1, root);
        let all = seq![e] + new;
        lemma_shapes_add(seq![e], new);
        assert(reader::shapes(seq![e]) =~= seq![reader::shape(e)]) by {
            reader::lemma_shapes(seq![e]);
            assert(reader::shapes(seq![e])[0] == reader::shape(seq![e][0]));
        }
        assert(open1.last().children + new =~= open.last().children + all);
        assert(open1.drop_last() =~= open.drop_last());
        (k, all)
    }
}

/// The element that was written is what a reader of its written form finds.
pub proof fn lemma_read_back(w: Written, base: int)
    requires
        xml::is_sound(writer::rendered(w)),
        is_plain(xml::reserved_scope(), w),
        depth(w) < MAX_DEPTH,
    ensures
        tree::tree_of(writer::rendered(w), base) matches Ok(e) && reader::shape(e) == found(
            xml::reserved_scope(),
            w,
        ),
{
    let text = writer::rendered(w);
    let trace = xml::lexed(text);
    let none = Seq::<char>::empty();
    assert(text + none =~= text);
    let (k, e) = lemma_element(
        text,
        0,
        xml::reserved_scope(),
        w,
        none,
        base,
        Seq::empty(),
        None,
    );
    assert(xml::steps_at(trace, k));
    assert(xml::tokens_from(trace, k).len() == 0);
}

/// There is no element in an empty text.
pub proof fn lemma_empty_text(base: int)
    requires
        xml::is_sound(Seq::empty()),
    ensures
        tree::tree_of(Seq::empty(), base) is Err,
{
    let trace = xml::lexed(Seq::empty());
    assert(xml::steps_at(trace, 0));
}

} // verus!
