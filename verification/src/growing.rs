//! That tokens of nested elements make the tree of these elements.

use vstd::prelude::*;
use vstd::string::*;

use crate::error::ErrorView;
use crate::packet;
use crate::packet::XmpSourceSpan;
use crate::tree;
use crate::tree::{AttrView, BindingView, ElementView};
use crate::xml;
use crate::xml::{KindView, TagAttributeView, TokenView};

verus! {

// ---------------------------------------------------------------------------------------------
// Nested tokens
// ---------------------------------------------------------------------------------------------

/// A part of the content of an element, with its tokens.
pub enum Part {
    /// Character data.
    Text(TokenView),
    /// Something that carries no data.
    Other(TokenView),
    /// An element: its start tag, its content and its end.
    Element(TokenView, Seq<Part>, TokenView),
}

/// Whether a part has tokens of its kind, and start tags that can be read.
pub open spec fn is_part(p: Part, base: int) -> bool
    decreases p,
{
    match p {
        Part::Text(t) => t.kind is Text,
        Part::Other(t) => t.kind is Other,
        Part::Element(first, content, last) => {
            &&& first.kind matches KindView::Start(tag) && tree::started(
                tag,
                packet::span(base + first.start, base + first.end),
            ) is Ok
            &&& last.kind is End
            &&& are_parts(content, base)
        },
    }
}

/// Whether all of some parts have tokens of their kind.
pub open spec fn are_parts(s: Seq<Part>, base: int) -> bool
    decreases s,
{
    s.len() > 0 ==> is_part(s[0], base) && are_parts(s.drop_first(), base)
}

/// The tokens of a part, in their order.
pub open spec fn part_tokens(p: Part) -> Seq<TokenView>
    decreases p,
{
    match p {
        Part::Text(t) => seq![t],
        Part::Other(t) => seq![t],
        Part::Element(first, content, last) => seq![first] + all_tokens(content) + seq![last],
    }
}

/// The tokens of some parts, in their order.
pub open spec fn all_tokens(s: Seq<Part>) -> Seq<TokenView>
    decreases s,
{
    if s.len() == 0 {
        Seq::empty()
    } else {
        part_tokens(s[0]) + all_tokens(s.drop_first())
    }
}

/// The character data among some parts, in one piece.
pub open spec fn text_among(s: Seq<Part>) -> Seq<char>
    decreases s.len(),
{
    if s.len() == 0 {
        Seq::empty()
    } else {
        (match s[0] {
            Part::Text(t) => t.kind->Text_0,
            _ => Seq::empty(),
        }) + text_among(s.drop_first())
    }
}

/// The elements among some parts, in their order.
pub open spec fn elements_among(s: Seq<Part>, base: int) -> Seq<ElementView>
    decreases s, 0int,
{
    if s.len() == 0 {
        Seq::empty()
    } else {
        (match s[0] {
            Part::Element(first, content, last) => seq![element_of(first, content, last, base)],
            _ => Seq::empty(),
        }) + elements_among(s.drop_first(), base)
    }
}

/// The element with the given start tag, content and end: what its start tag says, all the character
/// data and all the elements of its content, and the place from its start tag to its end.
pub open spec fn element_of(first: TokenView, content: Seq<Part>, last: TokenView, base: int) -> ElementView
    decreases content, 1int,
{
    let place = packet::span(base + first.start, base + first.end);
    ElementView {
        span: packet::span(base + first.start, base + last.end),
        tag: place,
        text: text_among(content),
        children: elements_among(content, base),
        ..tree::started(first.kind->Start_0, place)->Ok_0
    }
}

/// An element with more content.
spec fn extended(e: ElementView, s: Seq<Part>, base: int) -> ElementView {
    ElementView {
        text: e.text + text_among(s),
        children: e.children + elements_among(s, base),
        ..e
    }
}

proof fn lemma_started(first: TokenView, base: int)
    requires
        first.kind matches KindView::Start(tag) && tree::started(
            tag,
            packet::span(base + first.start, base + first.end),
        ) is Ok,
    ensures
        ({
            let place = packet::span(base + first.start, base + first.end);
            let e = tree::started(first.kind->Start_0, place)->Ok_0;
            e.span == place && e.tag == place && e.text.len() == 0 && e.children.len() == 0
        }),
{
}

proof fn lemma_span_start(start: int, end: int, later: int)
    ensures
        packet::span(packet::span(start, end).start as int, later) == packet::span(start, later),
{
}

proof fn lemma_part(
    tokens: Seq<TokenView>,
    i: int,
    base: int,
    open: Seq<ElementView>,
    root: Option<ElementView>,
    p: Part,
)
    requires
        is_part(p, base),
        0 <= i,
        i + part_tokens(p).len() <= tokens.len(),
        tokens.subrange(i, i + part_tokens(p).len()) == part_tokens(p),
        open.len() > 0,
    ensures
        tree::assembled(tokens, i, base, open, root) == tree::assembled(
            tokens,
            i + part_tokens(p).len(),
            base,
            open.drop_last().push(extended(open.last(), seq![p], base)),
            root,
        ),
    decreases p, 1int,
{
    let mine = part_tokens(p);
    let e = open.last();
    assert(seq![p].drop_first() =~= Seq::<Part>::empty());
    assert(seq![p][0] == p);
    assert(text_among(Seq::<Part>::empty()) == Seq::<char>::empty());
    assert(elements_among(Seq::<Part>::empty(), base) == Seq::<ElementView>::empty());
    assert(tokens.subrange(i, i + mine.len())[0] == tokens[i]);
    match p {
        Part::Text(t) => {
            assert(tokens[i] == t);
            assert(text_among(seq![p]) =~= t.kind->Text_0);
            assert(elements_among(seq![p], base) =~= Seq::empty());
            assert(e.children + elements_among(seq![p], base) =~= e.children);
            assert(extended(e, seq![p], base) == tree::with_text(e, t.kind->Text_0));
        },
        Part::Other(t) => {
            assert(tokens[i] == t);
            assert(text_among(seq![p]) =~= Seq::empty());
            assert(elements_among(seq![p], base) =~= Seq::empty());
            assert(e.children + elements_among(seq![p], base) =~= e.children);
            assert(e.text + text_among(seq![p]) =~= e.text);
            assert(extended(e, seq![p], base) == e);
            assert(open.drop_last().push(e) =~= open);
        },
        Part::Element(first, content, last) => {
            assert(mine[0] == first);
            assert(tokens[i] == first);
            let place = packet::span(base + first.start, base + first.end);
            let child = tree::started(first.kind->Start_0, place)->Ok_0;
            let inner = all_tokens(content);
            lemma_started(first, base);
            let deeper = open.push(child);
            assert(tokens.subrange(i + 1, i + 1 + inner.len()) =~= inner) by {
                assert forall|k: int| 0 <= k < inner.len() implies tokens[i + 1 + k]
                    == #[trigger] inner[k] by {
                    assert(mine[k + 1] == inner[k]);
                    assert(tokens.subrange(i, i + mine.len())[k + 1] == tokens[i + 1 + k]);
                }
            }
            lemma_parts(tokens, i + 1, base, deeper, root, content);
            let grown = extended(child, content, base);
            let next = i + 1 + inner.len();
            assert(deeper.drop_last() =~= open);
            assert(deeper.last() == child);
            let top = open.push(grown);
            assert(mine[inner.len() as int + 1] == last);
            assert(tokens.subrange(i, i + mine.len())[inner.len() as int + 1] == tokens[next]);
            assert(tokens[next] == last);
            assert(top.drop_last() =~= open);
            assert(top.last() == grown);
            assert(child.text + text_among(content) =~= text_among(content));
            assert(child.children + elements_among(content, base) =~= elements_among(
                content,
                base,
            ));
            lemma_span_start(base + first.start, base + first.end, base + last.end);
            let done = tree::closed(grown, base + last.end);
            assert(done == element_of(first, content, last, base));
            assert(elements_among(seq![p], base) =~= seq![done]);
            assert(text_among(seq![p]) =~= Seq::empty());
            assert(e.text + text_among(seq![p]) =~= e.text);
            assert(e.children + elements_among(seq![p], base) =~= e.children.push(done));
            assert(extended(e, seq![p], base) == tree::with_child(e, done));
            assert(tree::assembled(tokens, next, base, top, root) == tree::assembled(
                tokens,
                next + 1,
                base,
                open.drop_last().push(tree::with_child(e, done)),
                root,
            ));
        },
    }
}

proof fn lemma_extended(e: ElementView, s: Seq<Part>, base: int)
    requires
        s.len() > 0,
    ensures
        extended(extended(e, seq![s[0]], base), s.drop_first(), base) == extended(e, s, base),
{
    let p = s[0];
    let rest = s.drop_first();
    assert(seq![p].drop_first() =~= Seq::<Part>::empty());
    assert(seq![p][0] == p);
    assert(text_among(Seq::<Part>::empty()) == Seq::<char>::empty());
    assert(elements_among(Seq::<Part>::empty(), base) == Seq::<ElementView>::empty());
    assert(e.text + text_among(seq![p]) + text_among(rest) =~= e.text + text_among(s));
    assert(e.children + elements_among(seq![p], base) + elements_among(rest, base) =~= e.children
        + elements_among(s, base));
}

proof fn lemma_parts(
    tokens: Seq<TokenView>,
    i: int,
    base: int,
    open: Seq<ElementView>,
    root: Option<ElementView>,
    s: Seq<Part>,
)
    requires
        are_parts(s, base),
        0 <= i,
        i + all_tokens(s).len() <= tokens.len(),
        tokens.subrange(i, i + all_tokens(s).len()) == all_tokens(s),
        open.len() > 0,
    ensures
        tree::assembled(tokens, i, base, open, root) == tree::assembled(
            tokens,
            i + all_tokens(s).len(),
            base,
            open.drop_last().push(extended(open.last(), s, base)),
            root,
        ),
    decreases s, 0int,
{
    let e = open.last();
    if s.len() == 0 {
        assert(e.text + text_among(s) =~= e.text);
        assert(e.children + elements_among(s, base) =~= e.children);
        assert(extended(e, s, base) == e);
        assert(open.drop_last().push(e) =~= open);
    } else {
        let one = part_tokens(s[0]);
        let rest = s.drop_first();
        let others = all_tokens(rest);
        let all = tokens.subrange(i, i + all_tokens(s).len());
        assert(all == one + others);
        assert(tokens.subrange(i, i + one.len()) =~= all.subrange(0, one.len() as int));
        assert(all.subrange(0, one.len() as int) =~= one);
        assert(tokens.subrange(i + one.len(), i + one.len() + others.len()) =~= all.subrange(
            one.len() as int,
            all.len() as int,
        ));
        assert(all.subrange(one.len() as int, all.len() as int) =~= others);
        lemma_part(tokens, i, base, open, root, s[0]);
        let first = extended(e, seq![s[0]], base);
        let top = open.drop_last().push(first);
        lemma_parts(tokens, i + one.len(), base, top, root, rest);
        assert(top.drop_last() =~= open.drop_last());
        assert(top.last() == first);
        lemma_extended(e, s, base);
    }
}

/// Whether some tokens carry nothing that belongs to an element: character data and what carries no
/// data.
pub open spec fn are_asides(s: Seq<TokenView>) -> bool {
    forall|i: int| 0 <= i < s.len() ==> (#[trigger] s[i]).kind is Text || s[i].kind is Other
}

proof fn lemma_asides(
    tokens: Seq<TokenView>,
    i: int,
    to: int,
    base: int,
    root: Option<ElementView>,
)
    requires
        0 <= i <= to <= tokens.len(),
        forall|k: int|
            i <= k < to ==> (#[trigger] tokens[k]).kind is Text || tokens[k].kind is Other,
    ensures
        tree::assembled(tokens, i, base, Seq::empty(), root) == tree::assembled(
            tokens,
            to,
            base,
            Seq::empty(),
            root,
        ),
    decreases to - i,
{
    if i < to {
        assert(tokens[i].kind is Text || tokens[i].kind is Other);
        lemma_asides(tokens, i + 1, to, base, root);
    }
}

/// The tokens of an element, with character data and what carries no data around them, make that
/// element: with what its start tag says, all its character data, and all the elements in it at their
/// places.
pub proof fn law_tokens_make_their_tree(
    before: Seq<TokenView>,
    first: TokenView,
    content: Seq<Part>,
    last: TokenView,
    after: Seq<TokenView>,
    base: int,
)
    requires
        are_asides(before),
        are_asides(after),
        is_part(Part::Element(first, content, last), base),
    ensures
        tree::assembled(
            before + (seq![first] + all_tokens(content) + seq![last]) + after,
            0,
            base,
            Seq::empty(),
            None,
        ) == Ok::<ElementView, ErrorView>(element_of(first, content, last, base)),
{
    let inner = all_tokens(content);
    let mine = seq![first] + inner + seq![last];
    let tokens = before + mine + after;
    let i = before.len() as int;
    assert forall|k: int| 0 <= k < i implies (#[trigger] tokens[k]).kind is Text
        || tokens[k].kind is Other by {
        assert(tokens[k] == before[k]);
    }
    lemma_asides(tokens, 0, i, base, None);
    assert(tokens[i] == first);
    let place = packet::span(base + first.start, base + first.end);
    let child = tree::started(first.kind->Start_0, place)->Ok_0;
    lemma_started(first, base);
    let open = Seq::<ElementView>::empty().push(child);
    assert(tokens.subrange(i + 1, i + 1 + inner.len()) =~= inner);
    lemma_parts(tokens, i + 1, base, open, None, content);
    let grown = extended(child, content, base);
    let next = i + 1 + inner.len();
    assert(tokens[next] == last);
    let top = open.drop_last().push(grown);
    assert(top.last() == grown);
    assert(child.text + text_among(content) =~= text_among(content));
    assert(child.children + elements_among(content, base) =~= elements_among(content, base));
    lemma_span_start(base + first.start, base + first.end, base + last.end);
    let done = tree::closed(grown, base + last.end);
    assert(done == element_of(first, content, last, base));
    assert(tree::assembled(tokens, next, base, top, None) == tree::assembled(
        tokens,
        next + 1,
        base,
        Seq::empty(),
        Some(done),
    ));
    assert forall|k: int| next + 1 <= k < tokens.len() implies (#[trigger] tokens[k]).kind is Text
        || tokens[k].kind is Other by {
        assert(tokens[k] == after[k - next - 1]);
    }
    lemma_asides(tokens, next + 1, tokens.len() as int, base, Some(done));
}

// ---------------------------------------------------------------------------------------------
// Tokens that make no tree
// ---------------------------------------------------------------------------------------------

/// After asides and an element, that element is the root and nothing is open.
proof fn lemma_root_made(
    tokens: Seq<TokenView>,
    i: int,
    base: int,
    first: TokenView,
    content: Seq<Part>,
    last: TokenView,
)
    requires
        0 <= i,
        is_part(Part::Element(first, content, last), base),
        i + all_tokens(content).len() + 2 <= tokens.len(),
        tokens.subrange(i, i + all_tokens(content).len() + 2) == seq![first] + all_tokens(content)
            + seq![last],
    ensures
        tree::assembled(tokens, i, base, Seq::empty(), None) == tree::assembled(
            tokens,
            i + all_tokens(content).len() + 2,
            base,
            Seq::empty(),
            Some(element_of(first, content, last, base)),
        ),
        forall|root: ElementView|
            #[trigger] tree::assembled(tokens, i, base, Seq::empty(), Some(root)) == Err::<
                ElementView,
                ErrorView,
            >(ErrorView::Xml("multiple root elements"@)),
{
    let inner = all_tokens(content);
    let mine = seq![first] + inner + seq![last];
    let here = tokens.subrange(i, i + inner.len() + 2);
    assert(tokens[i] == here[0] && here[0] == first);
    lemma_started(first, base);
    let place = packet::span(base + first.start, base + first.end);
    let child = tree::started(first.kind->Start_0, place)->Ok_0;
    let open = Seq::<ElementView>::empty().push(child);
    assert(tokens.subrange(i + 1, i + 1 + inner.len()) =~= inner) by {
        assert forall|k: int| 0 <= k < inner.len() implies tokens[i + 1 + k]
            == #[trigger] inner[k] by {
            assert(here[k + 1] == mine[k + 1]);
        }
    }
    let next = i + 1 + inner.len();
    assert(tokens[next] == here[inner.len() as int + 1] && here[inner.len() as int + 1] == last);
    let grown = extended(child, content, base);
    let top = open.drop_last().push(grown);
    assert(top.last() == grown && top.len() == 1);
    lemma_parts(tokens, i + 1, base, open, None, content);
    assert(child.text + text_among(content) =~= text_among(content));
    assert(child.children + elements_among(content, base) =~= elements_among(content, base));
    lemma_span_start(base + first.start, base + first.end, base + last.end);
    assert(tree::closed(grown, base + last.end) == element_of(first, content, last, base));
    assert forall|root: ElementView|
        #[trigger] tree::assembled(tokens, i, base, Seq::empty(), Some(root)) == Err::<
            ElementView,
            ErrorView,
        >(ErrorView::Xml("multiple root elements"@)) by {
        lemma_parts(tokens, i + 1, base, open, Some(root), content);
        assert(tree::assembled(tokens, i, base, Seq::empty(), Some(root)) == tree::assembled(
            tokens,
            next,
            base,
            top,
            Some(root),
        ));
    }
}

/// A document with two root elements is refused, whatever follows them.
pub proof fn law_a_second_root_is_refused(
    before: Seq<TokenView>,
    first: TokenView,
    content: Seq<Part>,
    last: TokenView,
    between: Seq<TokenView>,
    other_first: TokenView,
    other: Seq<Part>,
    other_last: TokenView,
    after: Seq<TokenView>,
    base: int,
)
    requires
        are_asides(before),
        are_asides(between),
        is_part(Part::Element(first, content, last), base),
        is_part(Part::Element(other_first, other, other_last), base),
    ensures
        tree::assembled(
            before + (seq![first] + all_tokens(content) + seq![last]) + between + (
            seq![other_first] + all_tokens(other) + seq![other_last]) + after,
            0,
            base,
            Seq::empty(),
            None,
        ) == Err::<ElementView, ErrorView>(ErrorView::Xml("multiple root elements"@)),
{
    let one = seq![first] + all_tokens(content) + seq![last];
    let two = seq![other_first] + all_tokens(other) + seq![other_last];
    let tokens = before + one + between + two + after;
    let i = before.len() as int;
    let j = i + one.len();
    let k = j + between.len();
    assert forall|n: int| 0 <= n < i implies (#[trigger] tokens[n]).kind is Text
        || tokens[n].kind is Other by {
        assert(tokens[n] == before[n]);
    }
    lemma_asides(tokens, 0, i, base, None);
    assert(tokens.subrange(i, j) =~= one);
    lemma_root_made(tokens, i, base, first, content, last);
    let root = element_of(first, content, last, base);
    assert forall|n: int| j <= n < k implies (#[trigger] tokens[n]).kind is Text
        || tokens[n].kind is Other by {
        assert(tokens[n] == between[n - j]);
    }
    lemma_asides(tokens, j, k, base, Some(root));
    assert(tokens.subrange(k, k + two.len()) =~= two);
    lemma_root_made(tokens, k, base, other_first, other, other_last);
}

/// An end where no element is open is refused, and so is what holds no element at all.
pub proof fn law_an_end_needs_a_start(
    before: Seq<TokenView>,
    last: TokenView,
    after: Seq<TokenView>,
    base: int,
)
    requires
        are_asides(before),
        last.kind is End,
    ensures
        tree::assembled(before + seq![last] + after, 0, base, Seq::empty(), None) == Err::<
            ElementView,
            ErrorView,
        >(ErrorView::Xml("unbalanced end tag"@)),
        tree::assembled(before, 0, base, Seq::empty(), None) == Err::<ElementView, ErrorView>(
            ErrorView::MissingRdf,
        ),
{
    let tokens = before + seq![last] + after;
    let i = before.len() as int;
    assert forall|n: int| 0 <= n < i implies (#[trigger] tokens[n]).kind is Text
        || tokens[n].kind is Other by {
        assert(tokens[n] == before[n]);
    }
    lemma_asides(tokens, 0, i, base, None);
    assert(tokens[i] == last);
    lemma_asides(before, 0, i, base, None);
}

/// A document whose root is not closed is refused, and an error of the lexer in an element is handed
/// on, whatever follows it.
pub proof fn law_an_element_must_be_read_to_its_end(
    before: Seq<TokenView>,
    first: TokenView,
    content: Seq<Part>,
    wrong: TokenView,
    message: Seq<char>,
    after: Seq<TokenView>,
    base: int,
)
    requires
        are_asides(before),
        first.kind matches KindView::Start(tag) && tree::started(
            tag,
            packet::span(base + first.start, base + first.end),
        ) is Ok,
        are_parts(content, base),
        wrong.kind == KindView::Malformed(message),
    ensures
        tree::assembled(
            before + (seq![first] + all_tokens(content)) + seq![wrong] + after,
            0,
            base,
            Seq::empty(),
            None,
        ) == Err::<ElementView, ErrorView>(ErrorView::Xml(message)),
        tree::assembled(
            before + (seq![first] + all_tokens(content)),
            0,
            base,
            Seq::empty(),
            None,
        ) == Err::<ElementView, ErrorView>(ErrorView::MissingRdf),
{
    let none = Seq::<TokenView>::empty();
    let head = before + (seq![first] + all_tokens(content));
    lemma_opened(before, first, content, seq![wrong] + after, base);
    assert(head + (seq![wrong] + after) =~= head + seq![wrong] + after);
    assert((head + (seq![wrong] + after))[head.len() as int] == wrong);
    lemma_opened(before, first, content, none, base);
    assert(head + none =~= head);
}

proof fn lemma_opened(
    before: Seq<TokenView>,
    first: TokenView,
    content: Seq<Part>,
    after: Seq<TokenView>,
    base: int,
)
    requires
        are_asides(before),
        first.kind matches KindView::Start(tag) && tree::started(
            tag,
            packet::span(base + first.start, base + first.end),
        ) is Ok,
        are_parts(content, base),
    ensures
        ({
            let head = before + (seq![first] + all_tokens(content));
            exists|open: Seq<ElementView>|
                tree::assembled(head + after, 0, base, Seq::empty(), None)
                    == #[trigger] tree::assembled(
                    head + after,
                    head.len() as int,
                    base,
                    open,
                    None,
                )
        }),
{
    let inner = all_tokens(content);
    let head = before + (seq![first] + inner);
    let tokens = head + after;
    let i = before.len() as int;
    assert forall|n: int| 0 <= n < i implies (#[trigger] tokens[n]).kind is Text
        || tokens[n].kind is Other by {
        assert(tokens[n] == before[n]);
    }
    lemma_asides(tokens, 0, i, base, None);
    assert(tokens[i] == first);
    let place = packet::span(base + first.start, base + first.end);
    let child = tree::started(first.kind->Start_0, place)->Ok_0;
    let open = Seq::<ElementView>::empty().push(child);
    assert(tokens.subrange(i + 1, i + 1 + inner.len()) =~= inner);
    lemma_parts(tokens, i + 1, base, open, None, content);
    let top = open.drop_last().push(extended(child, content, base));
    assert(tree::assembled(tokens, 0, base, Seq::empty(), None) == tree::assembled(
        tokens,
        head.len() as int,
        base,
        top,
        None,
    ));
}

// ---------------------------------------------------------------------------------------------
// Start tags
// ---------------------------------------------------------------------------------------------

/// Whether an attribute declares a namespace.
pub open spec fn is_declaration(a: TagAttributeView) -> bool {
    a.key == "xmlns"@ || "xmlns:"@.is_prefix_of(a.key)
}

/// Each attribute of a start tag is an attribute of its element, or a namespace declaration; they
/// come in their order, and none is lost. The first that is wrong decides.
pub proof fn law_attributes_are_sorted_one_by_one(
    s: Seq<Result<TagAttributeView, Seq<char>>>,
    t: Seq<Result<TagAttributeView, Seq<char>>>,
    tag: XmpSourceSpan,
)
    ensures
        tree::sorted_attributes(s + t, tag) == match tree::sorted_attributes(s, tag) {
            Err(error) => Err(error),
            Ok((attrs, bindings)) => match tree::sorted_attributes(t, tag) {
                Err(error) => Err(error),
                Ok((more_attrs, more_bindings)) => Ok(
                    (attrs + more_attrs, bindings + more_bindings),
                ),
            },
        },
    decreases t.len(),
{
    if t.len() == 0 {
        assert(s + t =~= s);
        if let Ok((attrs, bindings)) = tree::sorted_attributes(s, tag) {
            assert(attrs + Seq::<AttrView>::empty() =~= attrs);
            assert(bindings + Seq::<BindingView>::empty() =~= bindings);
        }
    } else {
        law_attributes_are_sorted_one_by_one(s, t.drop_last(), tag);
        assert((s + t).drop_last() =~= s + t.drop_last());
        assert((s + t).last() == t.last());
        if let Ok((attrs, bindings)) = tree::sorted_attributes(s, tag) {
            if let Ok((a, b)) = tree::sorted_attributes(t.drop_last(), tag) {
                if let Ok((c, d)) = tree::sorted_attributes(t, tag) {
                    let (x, y) = tree::sorted_attributes(s + t, tag)->Ok_0;
                    assert(x =~= attrs + c);
                    assert(y =~= bindings + d);
                }
            }
        }
    }
}

/// An attribute is taken over with its prefix, the namespace of that, its local name and its
/// normalized value, and a declaration with the prefix and the namespace that it binds. One whose
/// prefix is not declared is refused.
pub proof fn law_an_attribute_keeps_its_parts(a: TagAttributeView, tag: XmpSourceSpan)
    ensures
        match tree::sorted_attributes(seq![Ok(a)], tag) {
            Ok((attrs, bindings)) => if is_declaration(a) {
                &&& attrs.len() == 0
                &&& bindings.len() == 1
                &&& bindings[0].namespace == a.value
                &&& bindings[0].span == tag
                &&& a.key == "xmlns"@ ==> bindings[0].prefix is None
                &&& a.key != "xmlns"@ ==> (bindings[0].prefix matches Some(prefix) && a.key
                    == "xmlns:"@ + prefix)
            } else {
                &&& attrs.len() == 1
                &&& bindings.len() == 0
                &&& attrs[0].local == a.local
                &&& a.normalized == Ok::<Seq<char>, Seq<char>>(attrs[0].value)
                &&& attrs[0].prefix == xml::prefix_part(a.key)
                &&& match attrs[0].ns {
                    Some(uri) => a.namespace == xml::ResolutionView::Bound(uri),
                    None => a.namespace is Unbound,
                }
            },
            Err(_) => !is_declaration(a) && (a.namespace is Unknown || a.normalized is Err),
        },
{
    let one: Seq<Result<TagAttributeView, Seq<char>>> = seq![Ok(a)];
    assert(one.drop_last() =~= Seq::empty());
    assert(one.last() == Ok::<TagAttributeView, Seq<char>>(a));
    assert(tree::sorted_attributes(one.drop_last(), tag) == Ok::<
        (Seq<AttrView>, Seq<BindingView>),
        ErrorView,
    >((Seq::empty(), Seq::empty())));
    if "xmlns:"@.is_prefix_of(a.key) {
        assert(a.key =~= "xmlns:"@ + a.key.skip("xmlns:"@.len() as int));
    }
}

/// A name is its prefix, a colon and its local part, or its local part alone. The prefix ends before
/// the first colon.
pub proof fn law_names_are_split_at_the_first_colon(name: Seq<char>)
    ensures
        match xml::prefix_part(name) {
            Some(prefix) => {
                &&& name == prefix + seq![':'] + xml::local_part(name)
                &&& forall|i: int| 0 <= i < prefix.len() ==> #[trigger] prefix[i] != ':'
            },
            None => {
                &&& xml::local_part(name) == name
                &&& forall|i: int| 0 <= i < name.len() ==> #[trigger] name[i] != ':'
            },
        },
{
    lemma_colon(name);
    let k = xml::colon(name);
    if k < name.len() {
        assert(name =~= name.take(k) + seq![':'] + name.skip(k + 1));
    }
}

proof fn lemma_colon(name: Seq<char>)
    ensures
        0 <= xml::colon(name) <= name.len(),
        xml::colon(name) < name.len() ==> name[xml::colon(name)] == ':',
        forall|i: int| 0 <= i < xml::colon(name) ==> #[trigger] name[i] != ':',
    decreases name.len(),
{
    if name.len() > 0 && name[0] != ':' {
        let rest = name.drop_first();
        lemma_colon(rest);
        assert forall|i: int| 0 <= i < xml::colon(name) implies #[trigger] name[i] != ':' by {
            if i > 0 {
                assert(rest[i - 1] == name[i]);
            }
        }
        if xml::colon(name) < name.len() {
            assert(rest[xml::colon(rest)] == name[xml::colon(name)]);
        }
    }
}

/// An element has the name, the prefix and the namespace of its start tag, and refuses a prefix that
/// is not declared.
pub proof fn law_an_element_has_the_name_of_its_tag(tag: xml::StartTagView, place: XmpSourceSpan)
    ensures
        match tree::started(tag, place) {
            Ok(e) => {
                &&& e.local == tag.local
                &&& e.prefix == xml::prefix_part(tag.name)
                &&& e.tag == place
                &&& tree::sorted_attributes(tag.attributes, place) == Ok::<
                    (Seq<AttrView>, Seq<BindingView>),
                    ErrorView,
                >((e.attrs, e.bindings))
                &&& match e.ns {
                    Some(uri) => tag.namespace == xml::ResolutionView::Bound(uri),
                    None => tag.namespace is Unbound,
                }
            },
            Err(error) => tag.namespace is Unknown || tree::sorted_attributes(
                tag.attributes,
                place,
            ) is Err,
        },
{
}

} // verus!
