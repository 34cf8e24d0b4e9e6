//! What renaming a namespace does to a graph: the namespaces of names change, and nothing else.

use vstd::prelude::*;

use crate::edit;
use crate::model::{ArrayKind, ItemView, PropertyView, ValueView};
use crate::namespace::NamespaceView;

verus! {

// ---------------------------------------------------------------------------------------------
// What is kept
// ---------------------------------------------------------------------------------------------

/// Whether two properties differ only by the namespaces of the names in them, at every level: where
/// a name of the first is in `from`, that of the second is in `to`, and every other name is in the
/// same namespace in both.
pub open spec fn differs_by_namespace(
    p: PropertyView,
    q: PropertyView,
    from: Seq<char>,
    to: Seq<char>,
) -> bool
    decreases p,
{
    &&& p.namespace == from ==> q.namespace == to
    &&& p.namespace != from ==> q.namespace == p.namespace
    &&& q.name == p.name
    &&& q.qualifiers.len() == p.qualifiers.len()
    &&& forall|i: int|
        0 <= i < p.qualifiers.len() ==> differs_by_namespace(
            #[trigger] p.qualifiers[i],
            q.qualifiers[i],
            from,
            to,
        )
    &&& value_differs_by_namespace(p.value, q.value, from, to)
}

/// Whether two values differ only by the namespaces of the names in them.
pub open spec fn value_differs_by_namespace(
    v: ValueView,
    w: ValueView,
    from: Seq<char>,
    to: Seq<char>,
) -> bool
    decreases v,
{
    match (v, w) {
        (ValueView::Simple(a), ValueView::Simple(b)) => a == b,
        (ValueView::Uri(a), ValueView::Uri(b)) => a == b,
        (ValueView::Structured(s), ValueView::Structured(t)) => {
            &&& s.len() == t.len()
            &&& forall|i: int|
                0 <= i < s.len() ==> differs_by_namespace(#[trigger] s[i], t[i], from, to)
        },
        (ValueView::Array(k, s), ValueView::Array(l, t)) => {
            &&& k == l
            &&& s.len() == t.len()
            &&& forall|i: int|
                0 <= i < s.len() ==> item_differs_by_namespace(#[trigger] s[i], t[i], from, to)
        },
        _ => false,
    }
}

/// Whether two items differ only by the namespaces of the names in them.
pub open spec fn item_differs_by_namespace(
    x: ItemView,
    y: ItemView,
    from: Seq<char>,
    to: Seq<char>,
) -> bool
    decreases x,
{
    &&& x.qualifiers.len() == y.qualifiers.len()
    &&& forall|i: int|
        0 <= i < x.qualifiers.len() ==> differs_by_namespace(
            #[trigger] x.qualifiers[i],
            y.qualifiers[i],
            from,
            to,
        )
    &&& value_differs_by_namespace(x.value, y.value, from, to)
}

proof fn lemma_renamed_all(s: Seq<PropertyView>, from: Seq<char>, to: Seq<char>)
    ensures
        edit::renamed_all(s, from, to).len() == s.len(),
        forall|i: int|
            0 <= i < s.len() ==> #[trigger] edit::renamed_all(s, from, to)[i] == edit::renamed(
                s[i],
                from,
                to,
            ),
    decreases s.len(),
{
    if s.len() > 0 {
        let before = edit::renamed_all(s.drop_last(), from, to);
        lemma_renamed_all(s.drop_last(), from, to);
        assert forall|i: int| 0 <= i < s.len() implies #[trigger] edit::renamed_all(
            s,
            from,
            to,
        )[i] == edit::renamed(s[i], from, to) by {
            if i < s.len() - 1 {
                assert(edit::renamed_all(s, from, to)[i] == before[i]);
            }
        }
    }
}

proof fn lemma_renamed_items(s: Seq<ItemView>, from: Seq<char>, to: Seq<char>)
    ensures
        edit::renamed_items(s, from, to).len() == s.len(),
        forall|i: int|
            0 <= i < s.len() ==> {
                &&& (#[trigger] edit::renamed_items(s, from, to)[i]).value == edit::renamed_value(
                    s[i].value,
                    from,
                    to,
                )
                &&& edit::renamed_items(s, from, to)[i].qualifiers == edit::renamed_all(
                    s[i].qualifiers,
                    from,
                    to,
                )
            },
    decreases s.len(),
{
    if s.len() > 0 {
        let before = edit::renamed_items(s.drop_last(), from, to);
        lemma_renamed_items(s.drop_last(), from, to);
        assert forall|i: int| 0 <= i < s.len() implies {
            &&& (#[trigger] edit::renamed_items(s, from, to)[i]).value == edit::renamed_value(
                s[i].value,
                from,
                to,
            )
            &&& edit::renamed_items(s, from, to)[i].qualifiers == edit::renamed_all(
                s[i].qualifiers,
                from,
                to,
            )
        } by {
            if i < s.len() - 1 {
                assert(edit::renamed_items(s, from, to)[i] == before[i]);
            }
        }
    }
}

/// Renaming a namespace keeps everything of a property but the namespaces of names: the local names,
/// the values and their kinds, and every qualifier, field and item, in their order.
pub proof fn law_renaming_changes_namespaces_only(p: PropertyView, from: Seq<char>, to: Seq<char>)
    ensures
        differs_by_namespace(p, edit::renamed(p, from, to), from, to),
    decreases p,
{
    let q = edit::renamed(p, from, to);
    lemma_renamed_all(p.qualifiers, from, to);
    assert forall|i: int| 0 <= i < p.qualifiers.len() implies differs_by_namespace(
        #[trigger] p.qualifiers[i],
        q.qualifiers[i],
        from,
        to,
    ) by {
        law_renaming_changes_namespaces_only(p.qualifiers[i], from, to);
        assert(q.qualifiers[i] == edit::renamed(p.qualifiers[i], from, to));
    }
    lemma_value_keeps(p.value, from, to);
}

proof fn lemma_value_keeps(v: ValueView, from: Seq<char>, to: Seq<char>)
    ensures
        value_differs_by_namespace(v, edit::renamed_value(v, from, to), from, to),
    decreases v,
{
    match v {
        ValueView::Structured(s) => {
            let t = edit::renamed_all(s, from, to);
            lemma_renamed_all(s, from, to);
            assert forall|i: int| 0 <= i < s.len() implies differs_by_namespace(
                #[trigger] s[i],
                t[i],
                from,
                to,
            ) by {
                law_renaming_changes_namespaces_only(s[i], from, to);
                assert(t[i] == edit::renamed(s[i], from, to));
            }
        },
        ValueView::Array(_, s) => {
            let t = edit::renamed_items(s, from, to);
            lemma_renamed_items(s, from, to);
            assert forall|i: int| 0 <= i < s.len() implies item_differs_by_namespace(
                #[trigger] s[i],
                t[i],
                from,
                to,
            ) by {
                assert(t[i].value == edit::renamed_value(s[i].value, from, to));
                lemma_item_keeps(s[i], t[i], from, to);
            }
        },
        _ => {},
    }
}

proof fn lemma_item_keeps(x: ItemView, y: ItemView, from: Seq<char>, to: Seq<char>)
    requires
        y.value == edit::renamed_value(x.value, from, to),
        y.qualifiers == edit::renamed_all(x.qualifiers, from, to),
    ensures
        item_differs_by_namespace(x, y, from, to),
    decreases x,
{
    lemma_renamed_all(x.qualifiers, from, to);
    assert forall|i: int| 0 <= i < x.qualifiers.len() implies differs_by_namespace(
        #[trigger] x.qualifiers[i],
        y.qualifiers[i],
        from,
        to,
    ) by {
        law_renaming_changes_namespaces_only(x.qualifiers[i], from, to);
        assert(y.qualifiers[i] == edit::renamed(x.qualifiers[i], from, to));
    }
    lemma_value_keeps(x.value, from, to);
}

/// Renaming a namespace in a graph keeps every property, in its place, and everything of it but the
/// namespaces of names.
pub proof fn law_renaming_keeps_every_property(meta: Seq<PropertyView>, from: Seq<char>, to: Seq<char>)
    ensures
        edit::renamed_all(meta, from, to).len() == meta.len(),
        forall|i: int|
            0 <= i < meta.len() ==> differs_by_namespace(
                #[trigger] meta[i],
                edit::renamed_all(meta, from, to)[i],
                from,
                to,
            ),
{
    lemma_renamed_all(meta, from, to);
    assert forall|i: int| 0 <= i < meta.len() implies differs_by_namespace(
        #[trigger] meta[i],
        edit::renamed_all(meta, from, to)[i],
        from,
        to,
    ) by {
        law_renaming_changes_namespaces_only(meta[i], from, to);
        assert(edit::renamed_all(meta, from, to)[i] == edit::renamed(meta[i], from, to));
    }
}

/// The registered prefixes stay, each in its place; the one that was bound to `from` is bound to
/// `to`.
pub proof fn law_renaming_keeps_the_prefixes(
    namespaces: Seq<NamespaceView>,
    from: Seq<char>,
    to: Seq<char>,
)
    ensures
        edit::renamed_namespaces(namespaces, from, to).len() == namespaces.len(),
        forall|i: int|
            0 <= i < namespaces.len() ==> {
                let n = #[trigger] edit::renamed_namespaces(namespaces, from, to)[i];
                &&& n.prefix == namespaces[i].prefix
                &&& namespaces[i].uri == from ==> n.uri == to
                &&& namespaces[i].uri != from ==> n.uri == namespaces[i].uri
            },
{
}

// ---------------------------------------------------------------------------------------------
// Renaming back
// ---------------------------------------------------------------------------------------------

/// Renaming a namespace to one that is not in use and then back restores the graph.
pub proof fn law_renaming_back_restores(meta: Seq<PropertyView>, from: Seq<char>, to: Seq<char>)
    requires
        edit::uses_in_all(meta, to) == 0,
    ensures
        edit::renamed_all(edit::renamed_all(meta, from, to), to, from) == meta,
    decreases meta,
{
    let there = edit::renamed_all(meta, from, to);
    if meta.len() > 0 {
        law_renaming_back_restores(meta.drop_last(), from, to);
        lemma_back(meta.last(), from, to);
        assert(there.drop_last() =~= edit::renamed_all(meta.drop_last(), from, to));
    }
    assert(edit::renamed_all(there, to, from) =~= meta);
}

proof fn lemma_back(p: PropertyView, from: Seq<char>, to: Seq<char>)
    requires
        edit::uses(p, to) == 0,
    ensures
        edit::renamed(edit::renamed(p, from, to), to, from) == p,
    decreases p,
{
    law_renaming_back_restores(p.qualifiers, from, to);
    lemma_back_value(p.value, from, to);
}

proof fn lemma_back_value(v: ValueView, from: Seq<char>, to: Seq<char>)
    requires
        edit::uses_in_value(v, to) == 0,
    ensures
        edit::renamed_value(edit::renamed_value(v, from, to), to, from) == v,
    decreases v,
{
    match v {
        ValueView::Structured(fields) => {
            law_renaming_back_restores(fields, from, to);
        },
        ValueView::Array(_, items) => {
            lemma_back_items(items, from, to);
        },
        _ => {},
    }
}

proof fn lemma_back_items(s: Seq<ItemView>, from: Seq<char>, to: Seq<char>)
    requires
        edit::uses_in_items(s, to) == 0,
    ensures
        edit::renamed_items(edit::renamed_items(s, from, to), to, from) == s,
    decreases s,
{
    let there = edit::renamed_items(s, from, to);
    if s.len() > 0 {
        lemma_back_items(s.drop_last(), from, to);
        law_renaming_back_restores(s.last().qualifiers, from, to);
        lemma_back_value(s.last().value, from, to);
        assert(there.drop_last() =~= edit::renamed_items(s.drop_last(), from, to));
    }
    assert(edit::renamed_items(there, to, from) =~= s);
}

// ---------------------------------------------------------------------------------------------
// Counting names
// ---------------------------------------------------------------------------------------------

/// After a namespace was renamed, the names that were in it are in the new one, besides those that
/// were there before, and every other namespace has as many names as before.
pub proof fn law_renaming_moves_the_names(
    meta: Seq<PropertyView>,
    from: Seq<char>,
    to: Seq<char>,
    other: Seq<char>,
)
    requires
        from != to,
        other != from,
        other != to,
    ensures
        edit::uses_in_all(edit::renamed_all(meta, from, to), to) == edit::uses_in_all(meta, from)
            + edit::uses_in_all(meta, to),
        edit::uses_in_all(edit::renamed_all(meta, from, to), other) == edit::uses_in_all(
            meta,
            other,
        ),
    decreases meta,
{
    if meta.len() > 0 {
        let after = edit::renamed_all(meta, from, to);
        law_renaming_moves_the_names(meta.drop_last(), from, to, other);
        lemma_moved(meta.last(), from, to, other);
        assert(after.drop_last() =~= edit::renamed_all(meta.drop_last(), from, to));
    }
}

proof fn lemma_moved(p: PropertyView, from: Seq<char>, to: Seq<char>, other: Seq<char>)
    requires
        from != to,
        other != from,
        other != to,
    ensures
        edit::uses(edit::renamed(p, from, to), to) == edit::uses(p, from) + edit::uses(p, to),
        edit::uses(edit::renamed(p, from, to), other) == edit::uses(p, other),
    decreases p,
{
    law_renaming_moves_the_names(p.qualifiers, from, to, other);
    lemma_moved_value(p.value, from, to, other);
}

proof fn lemma_moved_value(v: ValueView, from: Seq<char>, to: Seq<char>, other: Seq<char>)
    requires
        from != to,
        other != from,
        other != to,
    ensures
        edit::uses_in_value(edit::renamed_value(v, from, to), to) == edit::uses_in_value(v, from)
            + edit::uses_in_value(v, to),
        edit::uses_in_value(edit::renamed_value(v, from, to), other) == edit::uses_in_value(
            v,
            other,
        ),
    decreases v,
{
    match v {
        ValueView::Structured(fields) => {
            law_renaming_moves_the_names(fields, from, to, other);
        },
        ValueView::Array(_, items) => {
            lemma_moved_items(items, from, to, other);
        },
        _ => {},
    }
}

proof fn lemma_moved_items(s: Seq<ItemView>, from: Seq<char>, to: Seq<char>, other: Seq<char>)
    requires
        from != to,
        other != from,
        other != to,
    ensures
        edit::uses_in_items(edit::renamed_items(s, from, to), to) == edit::uses_in_items(s, from)
            + edit::uses_in_items(s, to),
        edit::uses_in_items(edit::renamed_items(s, from, to), other) == edit::uses_in_items(
            s,
            other,
        ),
    decreases s,
{
    if s.len() > 0 {
        let after = edit::renamed_items(s, from, to);
        lemma_moved_items(s.drop_last(), from, to, other);
        law_renaming_moves_the_names(s.last().qualifiers, from, to, other);
        lemma_moved_value(s.last().value, from, to, other);
        assert(after.drop_last() =~= edit::renamed_items(s.drop_last(), from, to));
    }
}

/// The names of joined lists are those of both.
pub proof fn law_names_of_joined_lists_add_up(
    s: Seq<PropertyView>,
    t: Seq<PropertyView>,
    uri: Seq<char>,
)
    ensures
        edit::uses_in_all(s + t, uri) == edit::uses_in_all(s, uri) + edit::uses_in_all(t, uri),
    decreases t.len(),
{
    if t.len() > 0 {
        law_names_of_joined_lists_add_up(s, t.drop_last(), uri);
        assert((s + t).drop_last() =~= s + t.drop_last());
    } else {
        assert(s + t =~= s);
    }
}

/// The names of a property are its own, those of its qualifiers and those of its value: of the
/// fields of a structure, and of the qualifiers and values of the items of an array.
pub proof fn law_names_are_counted_at_every_level(
    p: PropertyView,
    fields: Seq<PropertyView>,
    x: ItemView,
    kind: ArrayKind,
    items: Seq<ItemView>,
    uri: Seq<char>,
)
    ensures
        edit::uses_in_value(ValueView::Structured(fields.push(p)), uri) == edit::uses_in_value(
            ValueView::Structured(fields),
            uri,
        ) + edit::uses(p, uri),
        edit::uses_in_value(ValueView::Array(kind, items.push(x)), uri) == edit::uses_in_value(
            ValueView::Array(kind, items),
            uri,
        ) + edit::uses_in_all(x.qualifiers, uri) + edit::uses_in_value(x.value, uri),
        edit::uses(p, uri) == edit::uses_in_all(p.qualifiers, uri) + edit::uses_in_value(
            p.value,
            uri,
        ) + if p.namespace == uri {
            1int
        } else {
            0
        },
{
    assert(items.push(x).drop_last() =~= items);
    assert(fields.push(p).drop_last() =~= fields);
}

/// A name is in a namespace just where renaming that namespace changes something. So the count of
/// names, which is zero just where there is none, misses no level.
pub proof fn law_used_namespaces_are_renamed(meta: Seq<PropertyView>, from: Seq<char>, to: Seq<char>)
    requires
        from != to,
    ensures
        edit::uses_in_all(meta, from) == 0 <==> edit::renamed_all(meta, from, to) == meta,
{
    edit::law_a_renamed_namespace_is_gone(meta, from, to);
    if edit::uses_in_all(meta, from) == 0 {
        edit::law_renaming_an_unused_namespace_changes_nothing(meta, from, to);
    }
}

} // verus!
