//! That each event of the lexer is a token, with its names in the namespaces of its scope.

use vstd::prelude::*;
use vstd::string::*;

use crate::growing;
use crate::xml;
use crate::xml::{EventView, KindView, ResolutionView, TokenView, XmlStep, MAX_DEPTH};

verus! {

/// Whether a token is what a step read: of the same kind, with the same text, at the place between
/// the two states.
pub open spec fn is_token_of(t: TokenView, before: XmlStep, after: XmlStep) -> bool {
    &&& t.start == before.position
    &&& t.end == after.position
    &&& match after.outcome {
        Err(message) => t.kind == KindView::Malformed(message),
        Ok(EventView::Text(text)) => t.kind == KindView::Text(text),
        Ok(EventView::End) => t.kind is End,
        Ok(EventView::Start(name, rest)) => t.kind matches KindView::Start(tag) && tag.name == name
            && tag.attributes.len() == xml::tag_attributes(name, rest).len(),
        Ok(EventView::Reference(entity)) => match xml::unescaped("&"@ + entity + ";"@) {
            Ok(text) => t.kind == KindView::Text(text),
            Err(message) => t.kind == KindView::Malformed(message),
        },
        Ok(_) => t.kind is Other,
    }
}

proof fn lemma_tokens(trace: Seq<XmlStep>, i: int, n: int)
    requires
        0 <= i <= n < trace.len(),
        forall|k: int| i <= k < n ==> (#[trigger] trace[k]).open.len() < MAX_DEPTH,
        forall|k: int|
            i < k <= n ==> (#[trigger] trace[k]).outcome != Ok::<EventView, Seq<char>>(
                EventView::Eof,
            ),
    ensures
        ({
            let all = xml::tokens_from(trace, i);
            &&& all.len() == n - i + xml::tokens_from(trace, n).len()
            &&& all.skip(n - i) == xml::tokens_from(trace, n)
            &&& forall|k: int|
                i <= k < n ==> is_token_of(all[k - i], #[trigger] trace[k], trace[k + 1])
        }),
    decreases n - i,
{
    let all = xml::tokens_from(trace, i);
    if i < n {
        assert(trace[i].open.len() < MAX_DEPTH);
        assert(trace[i + 1].outcome != Ok::<EventView, Seq<char>>(EventView::Eof));
        let rest = xml::tokens_from(trace, i + 1);
        lemma_tokens(trace, i + 1, n);
        assert(all.skip(n - i) =~= rest.skip(n - i - 1));
        assert forall|k: int| i <= k < n implies is_token_of(
            all[k - i],
            #[trigger] trace[k],
            trace[k + 1],
        ) by {
            if k > i {
                assert(all[k - i] == rest[k - i - 1]);
            }
        }
    } else {
        assert(all.skip(0) =~= all);
    }
}

/// Each event of the lexer up to the end of the text is one token, in its order and at its place.
pub proof fn law_each_event_is_a_token(trace: Seq<XmlStep>, n: int)
    requires
        0 <= n,
        n + 1 < trace.len(),
        forall|k: int| 0 <= k <= n ==> (#[trigger] trace[k]).open.len() < MAX_DEPTH,
        forall|k: int|
            0 < k <= n ==> (#[trigger] trace[k]).outcome != Ok::<EventView, Seq<char>>(
                EventView::Eof,
            ),
        trace[n + 1].outcome == Ok::<EventView, Seq<char>>(EventView::Eof),
    ensures
        xml::tokens_from(trace, 0).len() == n,
        forall|k: int|
            0 <= k < n ==> is_token_of(
                xml::tokens_from(trace, 0)[k],
                #[trigger] trace[k],
                trace[k + 1],
            ),
{
    lemma_tokens(trace, 0, n);
    let all = xml::tokens_from(trace, 0);
    assert(trace[n].open.len() < MAX_DEPTH);
    assert forall|k: int| 0 <= k < n implies is_token_of(
        all[k],
        #[trigger] trace[k],
        trace[k + 1],
    ) by {
        assert(is_token_of(all[k - 0], trace[k], trace[k + 1]));
    }
}

/// Where elements are nested too deeply, what was read before is followed by one token that says so.
pub proof fn law_deep_nesting_ends_the_tokens(trace: Seq<XmlStep>, n: int)
    requires
        0 <= n,
        n + 1 < trace.len(),
        forall|k: int| 0 <= k < n ==> (#[trigger] trace[k]).open.len() < MAX_DEPTH,
        forall|k: int|
            0 < k <= n ==> (#[trigger] trace[k]).outcome != Ok::<EventView, Seq<char>>(
                EventView::Eof,
            ),
        trace[n].open.len() >= MAX_DEPTH,
    ensures
        ({
            let all = xml::tokens_from(trace, 0);
            &&& all.len() == n + 1
            &&& all[n].kind == KindView::Malformed("elements are nested too deeply"@)
            &&& forall|k: int|
                0 <= k < n ==> is_token_of(all[k], #[trigger] trace[k], trace[k + 1])
        }),
{
    lemma_tokens(trace, 0, n);
    let all = xml::tokens_from(trace, 0);
    assert(all[n] == all.skip(n - 0)[0]);
    assert forall|k: int| 0 <= k < n implies is_token_of(
        all[k],
        #[trigger] trace[k],
        trace[k + 1],
    ) by {
        assert(is_token_of(all[k - 0], trace[k], trace[k + 1]));
    }
}

/// An error of the lexer is the last token.
pub proof fn law_an_error_ends_the_tokens(trace: Seq<XmlStep>, n: int)
    requires
        0 <= n,
        n + 2 == trace.len(),
        forall|k: int| 0 <= k <= n ==> (#[trigger] trace[k]).open.len() < MAX_DEPTH,
        forall|k: int|
            0 < k <= n ==> (#[trigger] trace[k]).outcome != Ok::<EventView, Seq<char>>(
                EventView::Eof,
            ),
        trace[n + 1].outcome is Err,
    ensures
        xml::tokens_from(trace, 0).len() == n + 1,
        xml::tokens_from(trace, 0)[n].kind == KindView::Malformed(trace[n + 1].outcome->Err_0),
{
    lemma_tokens(trace, 0, n + 1);
    let all = xml::tokens_from(trace, 0);
    assert(is_token_of(all[n - 0], trace[n], trace[n + 1]));
}

// ---------------------------------------------------------------------------------------------
// Names
// ---------------------------------------------------------------------------------------------

/// Whether no binding of a scope is one of the prefix.
pub open spec fn leaves_alone(scope: Seq<(Seq<char>, Seq<char>)>, prefix: Seq<char>) -> bool {
    forall|i: int| 0 <= i < scope.len() ==> (#[trigger] scope[i]).0 != prefix
}

/// The last binding of a prefix is the one that counts, and without one there is none.
pub proof fn law_the_last_binding_counts(
    scope: Seq<(Seq<char>, Seq<char>)>,
    prefix: Seq<char>,
    uri: Seq<char>,
    later: Seq<(Seq<char>, Seq<char>)>,
)
    requires
        leaves_alone(later, prefix),
    ensures
        xml::binding(scope + seq![(prefix, uri)] + later, prefix) == Some(uri),
        xml::binding(later, prefix) is None,
    decreases later.len(),
{
    let whole = scope + seq![(prefix, uri)] + later;
    if later.len() > 0 {
        let less = later.drop_last();
        assert forall|i: int| 0 <= i < less.len() implies (#[trigger] less[i]).0 != prefix by {
            assert(less[i] == later[i]);
        }
        law_the_last_binding_counts(scope, prefix, uri, less);
        assert(whole.last() == later.last());
        assert(later[later.len() - 1].0 != prefix);
        assert(whole.drop_last() =~= scope + seq![(prefix, uri)] + less);
    } else {
        assert(whole.last() == (prefix, uri));
    }
}

/// A name with a prefix is in the namespace that the last binding of the prefix gives, and one whose
/// prefix is not bound is reported with that prefix. A name without a prefix is in the default
/// namespace if it is that of an element, and in none if it is that of an attribute.
pub proof fn law_names_are_in_the_namespace_of_their_prefix(
    scope: Seq<(Seq<char>, Seq<char>)>,
    prefix: Seq<char>,
    uri: Seq<char>,
    later: Seq<(Seq<char>, Seq<char>)>,
    local: Seq<char>,
    use_default: bool,
)
    requires
        leaves_alone(later, prefix),
        uri.len() > 0,
        forall|i: int| 0 <= i < prefix.len() ==> #[trigger] prefix[i] != ':',
    ensures
        prefix.len() > 0 ==> xml::resolved(
            scope + seq![(prefix, uri)] + later,
            prefix + seq![':'] + local,
            use_default,
        ) == ResolutionView::Bound(uri),
        prefix.len() > 0 ==> xml::resolved(later, prefix + seq![':'] + local, use_default)
            == ResolutionView::Unknown(prefix),
        (forall|i: int| 0 <= i < local.len() ==> #[trigger] local[i] != ':') && prefix.len() == 0
            ==> xml::resolved(scope + seq![(prefix, uri)] + later, local, use_default) == (if use_default {
            ResolutionView::Bound(uri)
        } else {
            ResolutionView::Unbound
        }),
{
    let name = prefix + seq![':'] + local;
    law_the_last_binding_counts(scope, prefix, uri, later);
    growing::law_names_are_split_at_the_first_colon(name);
    assert(name[prefix.len() as int] == ':');
    let found = xml::prefix_part(name)->Some_0;
    if found.len() < prefix.len() {
        assert(name[found.len() as int] == (found + seq![':'] + xml::local_part(name))[found.len()
            as int]);
        assert(prefix[found.len() as int] == ':');
    } else if found.len() > prefix.len() {
        assert(found[prefix.len() as int] == name[prefix.len() as int]);
    }
    assert(found =~= prefix) by {
        assert forall|i: int| 0 <= i < prefix.len() implies found[i] == #[trigger] prefix[i] by {
            assert((found + seq![':'] + xml::local_part(name))[i] == found[i]);
            assert(name[i] == prefix[i]);
        }
    }
    if prefix.len() == 0 {
        assert(prefix =~= Seq::empty());
        growing::law_names_are_split_at_the_first_colon(local);
        if (forall|i: int| 0 <= i < local.len() ==> #[trigger] local[i] != ':')
            && xml::prefix_part(local) is Some {
            let p = xml::prefix_part(local)->Some_0;
            assert((p + seq![':'] + xml::local_part(local))[p.len() as int] == ':');
            assert(local[p.len() as int] == ':');
        }
    }
}

/// An attribute `xmlns` binds the default namespace, one whose key begins with `xmlns:` binds the
/// prefix behind that, and no other attribute binds anything.
pub proof fn law_declarations_bind_their_prefixes(
    attributes: Seq<(Seq<char>, Seq<char>)>,
    prefix: Seq<char>,
    key: Seq<char>,
    value: Seq<char>,
)
    ensures
        xml::declarations(attributes.push(("xmlns"@, value))) == xml::declarations(attributes).push(
            (Seq::empty(), value),
        ),
        xml::declarations(attributes.push(("xmlns:"@ + prefix, value))) == xml::declarations(
            attributes,
        ).push((prefix, value)),
        key != "xmlns"@ && (forall|p: Seq<char>| key != #[trigger] ("xmlns:"@ + p))
            ==> xml::declarations(attributes.push((key, value))) == xml::declarations(attributes),
        xml::declarations(Seq::empty()) == Seq::<(Seq<char>, Seq<char>)>::empty(),
{
    let start = "xmlns:"@;
    reveal_strlit("xmlns");
    reveal_strlit("xmlns:");
    assert("xmlns"@.len() == 5 && start.len() == 6);
    assert(attributes.push(("xmlns"@, value)).drop_last() =~= attributes);
    let bound = start + prefix;
    assert(attributes.push((bound, value)).drop_last() =~= attributes);
    assert(bound.subrange(0, 6) =~= start);
    assert(bound.skip(6) =~= prefix);
    assert(attributes.push((key, value)).drop_last() =~= attributes);
    if start.is_prefix_of(key) {
        assert(key =~= start + key.skip(6)) by {
            assert forall|i: int| 0 <= i < 6 implies key[i] == #[trigger] start[i] by {
                assert(key.subrange(0, 6)[i] == start[i]);
            }
        }
    }
}

/// A start tag keeps its name, and each of its attributes its key and value, with the local part of
/// the name and the namespace that its scope gives.
pub proof fn law_tags_are_read_in_their_scope(
    scope: Seq<(Seq<char>, Seq<char>)>,
    name: Seq<char>,
    rest: Seq<char>,
    i: int,
)
    requires
        0 <= i < xml::tag_attributes(name, rest).len(),
    ensures
        ({
            let tag = xml::tag_in(scope, name, rest);
            &&& tag.name == name
            &&& tag.local == xml::local_part(name)
            &&& tag.namespace == xml::resolved(scope, name, true)
            &&& tag.attributes.len() == xml::tag_attributes(name, rest).len()
            &&& match xml::tag_attributes(name, rest)[i] {
                Err(message) => tag.attributes[i] == Err::<xml::TagAttributeView, Seq<char>>(
                    message,
                ),
                Ok((key, value)) => match tag.attributes[i] {
                    Ok(a) => {
                        &&& a.key == key
                        &&& a.value == value
                        &&& a.local == xml::local_part(key)
                        &&& a.namespace == xml::resolved(scope, key, false)
                        &&& a.normalized == xml::normalized(value)
                    },
                    Err(_) => false,
                },
            }
        }),
{
}

} // verus!
