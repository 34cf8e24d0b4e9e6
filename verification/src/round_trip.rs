//! Reading back what was written: a graph survives being written and read.

use vstd::prelude::*;
use vstd::string::*;
use vstd::utf8::*;

use crate::document;
use crate::document::{LocationView, Reading, SeenView, XmpPropertyForm};
use crate::encoding::XmpEncoding;
use crate::error::ErrorView;
use crate::model;
use crate::model::{ArrayKind, ItemView, PropertyView, ValueView};
use crate::namespace::{NamespaceView, RDF_NAMESPACE, XMPMETA_NAMESPACE, XML_NAMESPACE};
use crate::packet;
use crate::reader;
use crate::reader::{Shape, ShapeAttr};
use crate::relexing;
use crate::relexing::Scope;
use crate::rescanning;
use crate::resplicing;
use crate::text;
use crate::tree;
use crate::tree::ElementView;
use crate::writer;
use crate::writer::{Content, WriterView, Written};
use crate::xml;
use crate::xml::{MAX_DEPTH, XMLNS_NAMESPACE};

verus! {

// ---------------------------------------------------------------------------------------------
// Graphs that survive
// ---------------------------------------------------------------------------------------------

/// Whether a namespace URI survives: it is not empty, it holds no character that is written as a
/// reference, and it is not the reserved namespace of declarations.
pub open spec fn is_plain_uri(uri: Seq<char>) -> bool {
    &&& uri.len() > 0
    &&& uri != XMLNS_NAMESPACE@
    &&& forall|i: int| 0 <= i < uri.len() ==> xml::attribute_entity(#[trigger] uri[i]) is None
}

/// Whether a local name survives: it consists of characters that can stand in a name.
pub open spec fn is_plain_name(name: Seq<char>) -> bool {
    forall|i: int| 0 <= i < name.len() ==> xml::is_name_char(#[trigger] name[i])
}

/// Whether no qualifier is an `rdf:value`, which stands for the value itself.
pub open spec fn no_value_among(qualifiers: Seq<PropertyView>) -> bool {
    forall|i: int|
        0 <= i < qualifiers.len() ==> !model::is_named(
            #[trigger] qualifiers[i],
            RDF_NAMESPACE@,
            "value"@,
        )
}

/// Whether a property survives being written and read.
pub open spec fn survives(p: PropertyView) -> bool
    decreases p,
{
    &&& is_plain_uri(p.namespace)
    &&& is_plain_name(p.name)
    &&& no_value_among(p.qualifiers)
    &&& all_survive(p.qualifiers)
    &&& value_survives(p.value)
}

/// Whether properties survive being written and read.
pub open spec fn all_survive(s: Seq<PropertyView>) -> bool
    decreases s,
{
    if s.len() == 0 {
        true
    } else {
        survives(s[0]) && all_survive(s.drop_first())
    }
}

/// Whether a value survives being written and read.
pub open spec fn value_survives(v: ValueView) -> bool
    decreases v,
{
    match v {
        ValueView::Structured(fields) => all_survive(fields),
        ValueView::Array(kind, items) => items_survive(items) && (kind is Alt
            ==> model::unique_languages(items)),
        _ => true,
    }
}

/// Whether items survive being written and read.
pub open spec fn items_survive(s: Seq<ItemView>) -> bool
    decreases s,
{
    if s.len() == 0 {
        true
    } else {
        &&& no_value_among(s[0].qualifiers)
        &&& all_survive(s[0].qualifiers)
        &&& value_survives(s[0].value)
        &&& items_survive(s.drop_first())
    }
}

// ---------------------------------------------------------------------------------------------
// Namespaces in use
// ---------------------------------------------------------------------------------------------

/// Whether a namespace needs no declaration or is listed.
spec fn is_listed(uris: Seq<Seq<char>>, uri: Seq<char>) -> bool {
    uri == RDF_NAMESPACE@ || uri == XML_NAMESPACE@ || uris.contains(uri)
}

/// Whether the namespaces of a property are listed.
spec fn lists(uris: Seq<Seq<char>>, p: PropertyView) -> bool
    decreases p,
{
    &&& is_listed(uris, p.namespace)
    &&& lists_all(uris, p.qualifiers)
    &&& lists_value(uris, p.value)
}

/// Whether the namespaces of properties are listed.
spec fn lists_all(uris: Seq<Seq<char>>, s: Seq<PropertyView>) -> bool
    decreases s,
{
    if s.len() == 0 {
        true
    } else {
        lists(uris, s[0]) && lists_all(uris, s.drop_first())
    }
}

/// Whether the namespaces of a value are listed.
spec fn lists_value(uris: Seq<Seq<char>>, v: ValueView) -> bool
    decreases v,
{
    match v {
        ValueView::Structured(fields) => lists_all(uris, fields),
        ValueView::Array(_, items) => lists_items(uris, items),
        _ => true,
    }
}

/// Whether the namespaces of items are listed.
spec fn lists_items(uris: Seq<Seq<char>>, s: Seq<ItemView>) -> bool
    decreases s,
{
    if s.len() == 0 {
        true
    } else {
        &&& lists_all(uris, s[0].qualifiers)
        &&& lists_value(uris, s[0].value)
        &&& lists_items(uris, s.drop_first())
    }
}

/// Whether one list of URIs holds all of another.
spec fn holds_all(more: Seq<Seq<char>>, uris: Seq<Seq<char>>) -> bool {
    forall|u: Seq<char>| #[trigger] uris.contains(u) ==> more.contains(u)
}

proof fn lemma_lists_more(more: Seq<Seq<char>>, uris: Seq<Seq<char>>, p: PropertyView)
    requires
        holds_all(more, uris),
        lists(uris, p),
    ensures
        lists(more, p),
    decreases p,
{
    lemma_lists_all_more(more, uris, p.qualifiers);
    lemma_lists_value_more(more, uris, p.value);
}

proof fn lemma_lists_all_more(more: Seq<Seq<char>>, uris: Seq<Seq<char>>, s: Seq<PropertyView>)
    requires
        holds_all(more, uris),
        lists_all(uris, s),
    ensures
        lists_all(more, s),
    decreases s,
{
    if s.len() > 0 {
        lemma_lists_more(more, uris, s[0]);
        lemma_lists_all_more(more, uris, s.drop_first());
    }
}

proof fn lemma_lists_value_more(more: Seq<Seq<char>>, uris: Seq<Seq<char>>, v: ValueView)
    requires
        holds_all(more, uris),
        lists_value(uris, v),
    ensures
        lists_value(more, v),
    decreases v,
{
    match v {
        ValueView::Structured(fields) => {
            lemma_lists_all_more(more, uris, fields);
        },
        ValueView::Array(_, items) => {
            lemma_lists_items_more(more, uris, items);
        },
        _ => {},
    }
}

proof fn lemma_lists_items_more(more: Seq<Seq<char>>, uris: Seq<Seq<char>>, s: Seq<ItemView>)
    requires
        holds_all(more, uris),
        lists_items(uris, s),
    ensures
        lists_items(more, s),
    decreases s,
{
    if s.len() > 0 {
        lemma_lists_all_more(more, uris, s[0].qualifiers);
        lemma_lists_value_more(more, uris, s[0].value);
        lemma_lists_items_more(more, uris, s.drop_first());
    }
}

/// Adding a URI keeps the others.
proof fn lemma_with_uri(uris: Seq<Seq<char>>, uri: Seq<char>)
    ensures
        holds_all(writer::with_uri(uris, uri), uris),
        is_listed(writer::with_uri(uris, uri), uri),
{
    let more = writer::with_uri(uris, uri);
    assert forall|u: Seq<char>| #[trigger] uris.contains(u) implies more.contains(u) by {
        let i = choose|i: int| 0 <= i < uris.len() && uris[i] == u;
        assert(more[i] == u);
    }
    if more.len() > uris.len() {
        assert(more[uris.len() as int] == uri);
    }
}

/// The namespaces of a property are listed once they have been added.
proof fn lemma_property_listed(uris: Seq<Seq<char>>, p: PropertyView)
    ensures
        holds_all(writer::with_property_uris(uris, p), uris),
        lists(writer::with_property_uris(uris, p), p),
    decreases p,
{
    let a = writer::with_uri(uris, p.namespace);
    let b = writer::with_uris_of(a, p.qualifiers);
    let c = writer::with_value_uris(b, p.value);
    lemma_with_uri(uris, p.namespace);
    lemma_all_listed(a, p.qualifiers);
    lemma_value_listed(b, p.value);
    lemma_lists_all_more(c, b, p.qualifiers);
}

/// The namespaces of properties are listed once they have been added.
proof fn lemma_all_listed(uris: Seq<Seq<char>>, s: Seq<PropertyView>)
    ensures
        holds_all(writer::with_uris_of(uris, s), uris),
        lists_all(writer::with_uris_of(uris, s), s),
    decreases s,
{
    if s.len() > 0 {
        let a = writer::with_property_uris(uris, s[0]);
        lemma_property_listed(uris, s[0]);
        lemma_all_listed(a, s.drop_first());
        lemma_lists_more(writer::with_uris_of(a, s.drop_first()), a, s[0]);
    }
}

/// The namespaces of a value are listed once they have been added.
proof fn lemma_value_listed(uris: Seq<Seq<char>>, v: ValueView)
    ensures
        holds_all(writer::with_value_uris(uris, v), uris),
        lists_value(writer::with_value_uris(uris, v), v),
    decreases v,
{
    match v {
        ValueView::Structured(fields) => {
            lemma_all_listed(uris, fields);
        },
        ValueView::Array(_, items) => {
            lemma_items_listed(uris, items);
        },
        _ => {},
    }
}

/// The namespaces of items are listed once they have been added.
proof fn lemma_items_listed(uris: Seq<Seq<char>>, s: Seq<ItemView>)
    ensures
        holds_all(writer::with_item_uris(uris, s), uris),
        lists_items(writer::with_item_uris(uris, s), s),
    decreases s,
{
    if s.len() > 0 {
        let a = writer::with_uris_of(uris, s[0].qualifiers);
        let b = writer::with_value_uris(a, s[0].value);
        let c = writer::with_item_uris(b, s.drop_first());
        lemma_all_listed(uris, s[0].qualifiers);
        lemma_value_listed(a, s[0].value);
        lemma_items_listed(b, s.drop_first());
        lemma_lists_all_more(c, a, s[0].qualifiers);
        lemma_lists_value_more(c, b, s[0].value);
    }
}

// ---------------------------------------------------------------------------------------------
// Prefixes
// ---------------------------------------------------------------------------------------------

/// Whether a URI survives and needs a declaration.
spec fn is_declared_uri(uri: Seq<char>) -> bool {
    is_plain_uri(uri) && uri != RDF_NAMESPACE@ && uri != XML_NAMESPACE@
}

/// Whether all URIs of a list survive and need a declaration.
spec fn are_declared_uris(uris: Seq<Seq<char>>) -> bool {
    forall|i: int| 0 <= i < uris.len() ==> is_declared_uri(#[trigger] uris[i])
}

proof fn lemma_property_uris(uris: Seq<Seq<char>>, p: PropertyView)
    requires
        are_declared_uris(uris),
        survives(p),
    ensures
        are_declared_uris(writer::with_property_uris(uris, p)),
    decreases p,
{
    let a = writer::with_uri(uris, p.namespace);
    assert(are_declared_uris(a));
    lemma_uris_of(a, p.qualifiers);
    lemma_value_uris(writer::with_uris_of(a, p.qualifiers), p.value);
}

proof fn lemma_uris_of(uris: Seq<Seq<char>>, s: Seq<PropertyView>)
    requires
        are_declared_uris(uris),
        all_survive(s),
    ensures
        are_declared_uris(writer::with_uris_of(uris, s)),
    decreases s,
{
    if s.len() > 0 {
        lemma_property_uris(uris, s[0]);
        lemma_uris_of(writer::with_property_uris(uris, s[0]), s.drop_first());
    }
}

proof fn lemma_value_uris(uris: Seq<Seq<char>>, v: ValueView)
    requires
        are_declared_uris(uris),
        value_survives(v),
    ensures
        are_declared_uris(writer::with_value_uris(uris, v)),
    decreases v,
{
    match v {
        ValueView::Structured(fields) => {
            lemma_uris_of(uris, fields);
        },
        ValueView::Array(_, items) => {
            lemma_item_uris(uris, items);
        },
        _ => {},
    }
}

proof fn lemma_item_uris(uris: Seq<Seq<char>>, s: Seq<ItemView>)
    requires
        are_declared_uris(uris),
        items_survive(s),
    ensures
        are_declared_uris(writer::with_item_uris(uris, s)),
    decreases s,
{
    if s.len() > 0 {
        let a = writer::with_uris_of(uris, s[0].qualifiers);
        lemma_uris_of(uris, s[0].qualifiers);
        lemma_value_uris(a, s[0].value);
        lemma_item_uris(writer::with_value_uris(a, s[0].value), s.drop_first());
    }
}

/// Whether a text is made of characters that can stand in a prefix.
spec fn has_prefix_chars(prefix: Seq<char>) -> bool {
    forall|i: int| 0 <= i < prefix.len() ==> writer::is_prefix_char(#[trigger] prefix[i])
}

/// Whether a text begins with the letters `xml`.
spec fn is_reserved(prefix: Seq<char>) -> bool {
    prefix.len() >= 3 && prefix[0] == 'x' && prefix[1] == 'm' && prefix[2] == 'l'
}

/// Whether a text is a prefix that can be declared.
spec fn is_usable(prefix: Seq<char>) -> bool {
    prefix.len() > 0 && has_prefix_chars(prefix) && !is_reserved(prefix)
}

/// Adding underscores keeps a prefix usable and finds one that is free.
proof fn lemma_free_prefix(table: Seq<NamespaceView>, prefix: Seq<char>)
    requires
        is_usable(prefix),
    ensures
        is_usable(writer::free_prefix(table, prefix)),
        !writer::is_taken(table, writer::free_prefix(table, prefix)),
    decreases writer::longest_taken(table) + 1 - prefix.len(),
{
    if writer::is_taken(table, prefix) {
        writer::lemma_longest_taken(table, prefix);
        let longer = prefix.push('_');
        assert forall|i: int| 0 <= i < longer.len() implies writer::is_prefix_char(
            #[trigger] longer[i],
        ) by {
            if i < prefix.len() {
                assert(longer[i] == prefix[i]);
            }
        }
        lemma_free_prefix(table, longer);
    }
}

/// The digits of a number can stand in a prefix.
proof fn lemma_decimal(n: nat)
    ensures
        has_prefix_chars(writer::decimal(n)),
        writer::decimal(n).len() > 0,
    decreases n,
{
    if n >= 10 {
        lemma_decimal(n / 10);
        let d = writer::decimal(n);
        assert forall|i: int| 0 <= i < d.len() implies writer::is_prefix_char(#[trigger] d[i]) by {
            if i < d.len() - 1 {
                assert(d[i] == writer::decimal(n / 10)[i]);
            }
        }
    }
}

/// A prefix that was checked is usable.
proof fn lemma_valid_prefix(prefix: Seq<char>)
    requires
        writer::is_valid_prefix(prefix),
    ensures
        is_usable(prefix),
{
    if is_reserved(prefix) {
        reveal_strlit("xml");
        assert("xml"@ =~= text::lower_text(prefix).subrange(0, 3));
    }
}

/// The conventional prefixes are usable.
proof fn lemma_conventional(uri: Seq<char>)
    ensures
        writer::conventional_prefix(uri) matches Some(prefix) ==> is_usable(prefix),
{
    reveal_strlit("dc");
    reveal_strlit("xmp");
    reveal_strlit("xmpRights");
    reveal_strlit("xmpMM");
    reveal_strlit("pdf");
    reveal_strlit("photoshop");
    reveal_strlit("tiff");
    reveal_strlit("exif");
    if let Some(prefix) = writer::conventional_prefix(uri) {
        assert forall|i: int| 0 <= i < prefix.len() implies writer::is_prefix_char(
            #[trigger] prefix[i],
        ) by {
            assert(i == 0 || i == 1 || i == 2 || i == 3 || i == 4 || i == 5 || i == 6 || i == 7
                || i == 8);
        }
    }
}

/// The prefix that a namespace gets is usable and free.
proof fn lemma_chosen_prefix(
    registered: Seq<NamespaceView>,
    table: Seq<NamespaceView>,
    uri: Seq<char>,
)
    ensures
        is_usable(writer::chosen_prefix(registered, table, uri)),
        !writer::is_taken(table, writer::chosen_prefix(registered, table, uri)),
{
    lemma_registered(registered, table, uri, 0);
    lemma_conventional(uri);
    match writer::registered_from(registered, table, uri, 0) {
        Some(_) => {},
        None => match writer::conventional_prefix(uri) {
            Some(prefix) => {
                lemma_free_prefix(table, prefix);
            },
            None => {
                let number = writer::decimal((table.len() + 1) as nat);
                let prefix = "ns"@ + number;
                reveal_strlit("ns");
                lemma_decimal((table.len() + 1) as nat);
                assert forall|i: int| 0 <= i < prefix.len() implies writer::is_prefix_char(
                    #[trigger] prefix[i],
                ) by {
                    if i >= 2 {
                        assert(prefix[i] == number[i - 2]);
                    }
                }
                lemma_free_prefix(table, prefix);
            },
        },
    }
}

/// A registered prefix that is chosen is usable and free.
proof fn lemma_registered(
    registered: Seq<NamespaceView>,
    table: Seq<NamespaceView>,
    uri: Seq<char>,
    from: int,
)
    ensures
        writer::registered_from(registered, table, uri, from) matches Some(prefix) ==> is_usable(
            prefix,
        ) && !writer::is_taken(table, prefix),
    decreases registered.len() - from,
{
    if 0 <= from < registered.len() {
        if writer::is_valid_prefix(registered[from].prefix) {
            lemma_valid_prefix(registered[from].prefix);
        }
        lemma_registered(registered, table, uri, from + 1);
    }
}

/// Whether the entries of a table can be declared side by side.
spec fn is_good_table(table: Seq<NamespaceView>) -> bool {
    &&& forall|i: int|
        0 <= i < table.len() ==> is_usable((#[trigger] table[i]).prefix) && is_declared_uri(
            table[i].uri,
        ) && table[i].prefix != "rdf"@ && table[i].prefix != "x"@
    &&& forall|i: int, j: int|
        0 <= i < j < table.len() ==> (#[trigger] table[i]).prefix != (#[trigger] table[j]).prefix
}

/// The URIs of a table.
spec fn table_uris(table: Seq<NamespaceView>) -> Seq<Seq<char>> {
    table.map_values(|n: NamespaceView| n.uri)
}

/// The table of namespaces can be declared and holds the namespaces that it was made for.
proof fn lemma_table(
    registered: Seq<NamespaceView>,
    table: Seq<NamespaceView>,
    uris: Seq<Seq<char>>,
)
    requires
        is_good_table(table),
        are_declared_uris(uris),
    ensures
        is_good_table(writer::extended_table(registered, table, uris)),
        table_uris(writer::extended_table(registered, table, uris)) == table_uris(table) + uris,
    decreases uris.len(),
{
    if uris.len() == 0 {
        assert(table_uris(table) + uris =~= table_uris(table));
    } else {
        let prefix = writer::chosen_prefix(registered, table, uris[0]);
        let more = table.push(NamespaceView { uri: uris[0], prefix });
        lemma_chosen_prefix(registered, table, uris[0]);
        assert(is_good_table(more));
        assert forall|i: int| 0 <= i < uris.drop_first().len() implies is_declared_uri(
            #[trigger] uris.drop_first()[i],
        ) by {
            assert(uris.drop_first()[i] == uris[i + 1]);
        }
        lemma_table(registered, more, uris.drop_first());
        assert(table_uris(more) + uris.drop_first() =~= table_uris(table) + uris);
    }
}

// ---------------------------------------------------------------------------------------------
// Names
// ---------------------------------------------------------------------------------------------

/// Whether a scope gives the prefixes of a table, and those that the writer uses by itself, their
/// namespaces.
spec fn serves(scope: Scope, table: Seq<NamespaceView>) -> bool {
    &&& xml::binding(scope, "rdf"@) == Some(RDF_NAMESPACE@)
    &&& xml::binding(scope, "xml"@) == Some(XML_NAMESPACE@)
    &&& forall|i: int|
        0 <= i < table.len() ==> xml::binding(scope, (#[trigger] table[i]).prefix) == Some(
            table[i].uri,
        )
}

/// The namespaces that the writer uses by itself differ, and are not empty.
proof fn lemma_own_namespaces()
    ensures
        RDF_NAMESPACE@ != XML_NAMESPACE@,
        RDF_NAMESPACE@.len() > 0,
        XML_NAMESPACE@.len() > 0,
{
    reveal_strlit("http://www.w3.org/1999/02/22-rdf-syntax-ns#");
    reveal_strlit("http://www.w3.org/XML/1998/namespace");
    assert(RDF_NAMESPACE@.len() == 43);
    assert(XML_NAMESPACE@.len() == 36);
}

/// A name falls apart at its first colon.
proof fn lemma_split_name(prefix: Seq<char>, name: Seq<char>)
    requires
        forall|i: int| 0 <= i < prefix.len() ==> #[trigger] prefix[i] != ':',
    ensures
        xml::colon(prefix + ":"@ + name) == prefix.len(),
        xml::prefix_part(prefix + ":"@ + name) == Some(prefix),
        xml::local_part(prefix + ":"@ + name) == name,
    decreases prefix.len(),
{
    reveal_strlit(":");
    let whole = prefix + ":"@ + name;
    if prefix.len() > 0 {
        let shorter = prefix.drop_first();
        assert forall|i: int| 0 <= i < shorter.len() implies #[trigger] shorter[i] != ':' by {
            assert(shorter[i] == prefix[i + 1]);
        }
        lemma_split_name(shorter, name);
        assert(whole.drop_first() =~= shorter + ":"@ + name);
    }
    assert(whole.take(prefix.len() as int) =~= prefix);
    assert(whole.skip(prefix.len() as int + 1) =~= name);
}

/// A name in the namespace of a prefix resolves to that namespace.
proof fn lemma_prefixed(scope: Scope, prefix: Seq<char>, uri: Seq<char>, name: Seq<char>)
    requires
        prefix.len() > 0,
        has_prefix_chars(prefix),
        xml::binding(scope, prefix) == Some(uri),
        uri.len() > 0,
        is_plain_name(name),
    ensures
        xml::is_name(prefix + ":"@ + name),
        xml::resolved(scope, prefix + ":"@ + name, true) == xml::ResolutionView::Bound(uri),
        xml::resolved(scope, prefix + ":"@ + name, false) == xml::ResolutionView::Bound(uri),
        xml::local_part(prefix + ":"@ + name) == name,
{
    reveal_strlit(":");
    let whole = prefix + ":"@ + name;
    assert forall|i: int| 0 <= i < prefix.len() implies #[trigger] prefix[i] != ':' by {
        assert(writer::is_prefix_char(prefix[i]));
    }
    lemma_split_name(prefix, name);
    assert forall|i: int| 0 <= i < whole.len() implies xml::is_name_char(#[trigger] whole[i]) by {
        if i < prefix.len() {
            assert(whole[i] == prefix[i]);
            assert(writer::is_prefix_char(prefix[i]));
        } else if i > prefix.len() {
            assert(whole[i] == name[i - prefix.len() - 1]);
        }
    }
}

/// The prefixes that the writer uses by itself are made of characters that can stand in a prefix.
proof fn lemma_own_prefixes()
    ensures
        has_prefix_chars("rdf"@),
        "rdf"@.len() == 3,
        has_prefix_chars("xml"@),
        "xml"@.len() == 3,
{
    reveal_strlit("rdf");
    reveal_strlit("xml");
    assert forall|i: int| 0 <= i < 3 implies writer::is_prefix_char(#[trigger] "rdf"@[i]) by {
        assert(i == 0 || i == 1 || i == 2);
    }
    assert forall|i: int| 0 <= i < 3 implies writer::is_prefix_char(#[trigger] "xml"@[i]) by {
        assert(i == 0 || i == 1 || i == 2);
    }
}

/// The prefix of a namespace in a table is that of an entry for it.
proof fn lemma_prefix_from(table: Seq<NamespaceView>, uri: Seq<char>, from: int)
    requires
        0 <= from,
        exists|i: int| from <= i < table.len() && (#[trigger] table[i]).uri == uri,
    ensures
        exists|i: int|
            0 <= i < table.len() && (#[trigger] table[i]).uri == uri && table[i].prefix
                == writer::prefix_from(table, uri, from),
    decreases table.len() - from,
{
    if table[from].uri != uri {
        lemma_prefix_from(table, uri, from + 1);
    } else {
        assert(table[from].prefix == writer::prefix_from(table, uri, from));
    }
}

/// A qualified name resolves to the namespace that it was made for.
proof fn lemma_qualified_name(
    scope: Scope,
    table: Seq<NamespaceView>,
    uri: Seq<char>,
    name: Seq<char>,
)
    requires
        serves(scope, table),
        is_good_table(table),
        is_listed(table_uris(table), uri),
        is_plain_name(name),
    ensures
        xml::is_name(writer::qualified_name(table, uri, name)),
        xml::resolved(scope, writer::qualified_name(table, uri, name), true)
            == xml::ResolutionView::Bound(uri),
        xml::local_part(writer::qualified_name(table, uri, name)) == name,
{
    lemma_own_namespaces();
    lemma_own_prefixes();
    if uri == RDF_NAMESPACE@ {
        lemma_prefixed(scope, "rdf"@, uri, name);
    } else if uri == XML_NAMESPACE@ {
        lemma_prefixed(scope, "xml"@, uri, name);
    } else {
        let uris = table_uris(table);
        let k = choose|k: int| 0 <= k < uris.len() && uris[k] == uri;
        assert(table[k].uri == uri);
        lemma_prefix_from(table, uri, 0);
        let i = choose|i: int|
            0 <= i < table.len() && (#[trigger] table[i]).uri == uri && table[i].prefix
                == writer::prefix_from(table, uri, 0);
        lemma_prefixed(scope, table[i].prefix, uri, name);
    }
}

// ---------------------------------------------------------------------------------------------
// Attributes of values
// ---------------------------------------------------------------------------------------------

/// An escaped value can be quoted.
proof fn lemma_quotable(value: Seq<char>)
    ensures
        xml::is_quotable(xml::escaped_attribute(value)),
    decreases value.len(),
{
    if value.len() > 0 {
        lemma_quotable(value.drop_last());
        reveal_strlit("amp");
        reveal_strlit("lt");
        reveal_strlit("gt");
        reveal_strlit("quot");
        reveal_strlit("#x9");
        reveal_strlit("#xA");
        reveal_strlit("#xD");
        let before = xml::escaped_attribute(value.drop_last());
        let last = match xml::attribute_entity(value.last()) {
            Some(entity) => xml::reference(entity),
            None => seq![value.last()],
        };
        assert forall|i: int| 0 <= i < last.len() implies #[trigger] last[i] != '"' by {
            assert(i == 0 || i == 1 || i == 2 || i == 3 || i == 4 || i == 5);
        }
        let whole = xml::escaped_attribute(value);
        assert forall|i: int| 0 <= i < whole.len() implies #[trigger] whole[i] != '"' by {
            if i < before.len() {
                assert(whole[i] == before[i]);
            } else {
                assert(whole[i] == last[i - before.len()]);
            }
        }
    }
}

/// The attribute in which a language is found.
spec fn language_shape(lang: Option<Seq<char>>) -> Seq<ShapeAttr> {
    match lang {
        Some(lang) => seq![ShapeAttr { ns: Some(XML_NAMESPACE@), local: "lang"@, value: lang }],
        None => Seq::empty(),
    }
}

/// The qualifier for a language.
spec fn language_part(lang: Option<Seq<char>>) -> Seq<PropertyView> {
    match lang {
        Some(lang) => seq![model::language_qualifier(lang)],
        None => Seq::empty(),
    }
}

/// Whether attributes come back as they should, and declare nothing.
spec fn are_found(
    scope: Scope,
    attrs: Seq<(Seq<char>, Seq<char>)>,
    shapes: Seq<ShapeAttr>,
) -> bool {
    &&& relexing::found_attrs(scope, attrs) == shapes
    &&& xml::are_attributes(writer::escaped_attrs(attrs))
    &&& xml::declarations(writer::escaped_attrs(attrs)) == Seq::<(Seq<char>, Seq<char>)>::empty()
    &&& relexing::are_resolvable(scope, attrs)
}

/// An attribute that is found in a namespace of its own, after others.
proof fn lemma_one_more(
    scope: Scope,
    attrs: Seq<(Seq<char>, Seq<char>)>,
    shapes: Seq<ShapeAttr>,
    key: Seq<char>,
    value: Seq<char>,
    uri: Seq<char>,
)
    requires
        are_found(scope, attrs, shapes),
        xml::is_name(key),
        xml::declared_prefix(key) is None,
        xml::resolved(scope, key, false) == xml::ResolutionView::Bound(uri),
        forall|i: int| 0 <= i < attrs.len() ==> (#[trigger] attrs[i]).0 != key,
    ensures
        are_found(
            scope,
            attrs.push((key, value)),
            shapes.push(ShapeAttr { ns: Some(uri), local: xml::local_part(key), value }),
        ),
{
    let more = attrs.push((key, value));
    let escaped = writer::escaped_attrs(more);
    assert(more.drop_last() =~= attrs);
    assert(escaped.drop_last() =~= writer::escaped_attrs(attrs));
    lemma_quotable(value);
    assert forall|i: int| 0 <= i < escaped.len() implies xml::is_name((#[trigger] escaped[i]).0)
        && xml::is_quotable(escaped[i].1) by {
        if i < attrs.len() {
            assert(escaped[i] == writer::escaped_attrs(attrs)[i]);
        }
    }
    assert forall|i: int, j: int| 0 <= i < j < escaped.len() implies (#[trigger] escaped[i]).0 != (
    #[trigger] escaped[j]).0 by {
        assert(escaped[i] == writer::escaped_attrs(attrs)[i]);
        if j < attrs.len() {
            assert(escaped[j] == writer::escaped_attrs(attrs)[j]);
        } else {
            assert(attrs[i].0 != key);
        }
    }
    assert forall|i: int| 0 <= i < more.len() implies xml::declared_prefix((#[trigger] more[i]).0)
        is Some || !(xml::resolved(scope, more[i].0, false) is Unknown) by {
        if i < attrs.len() {
            assert(more[i] == attrs[i]);
        }
    }
}

/// The names that the writer uses by itself are plain.
proof fn lemma_own_names()
    ensures
        is_plain_name("lang"@),
        is_plain_name("resource"@),
        is_plain_name("parseType"@),
        is_plain_name("value"@),
        is_plain_name("li"@),
        is_plain_name("Bag"@),
        is_plain_name("Seq"@),
        is_plain_name("Alt"@),
        is_plain_name("Description"@),
        is_plain_name("RDF"@),
        is_plain_name("about"@),
{
    reveal_strlit("lang");
    reveal_strlit("resource");
    reveal_strlit("parseType");
    reveal_strlit("value");
    reveal_strlit("li");
    reveal_strlit("Bag");
    reveal_strlit("Seq");
    reveal_strlit("Alt");
    reveal_strlit("Description");
    reveal_strlit("RDF");
    reveal_strlit("about");
    lemma_short_name("lang"@);
    lemma_short_name("resource"@);
    lemma_short_name("parseType"@);
    lemma_short_name("value"@);
    lemma_short_name("li"@);
    lemma_short_name("Bag"@);
    lemma_short_name("Seq"@);
    lemma_short_name("Alt"@);
    lemma_short_name("Description"@);
    lemma_short_name("RDF"@);
    lemma_short_name("about"@);
}

/// A short name is plain if each of its characters is.
proof fn lemma_short_name(name: Seq<char>)
    requires
        name.len() <= 11,
        name.len() > 0 ==> xml::is_name_char(name[0]),
        name.len() > 1 ==> xml::is_name_char(name[1]),
        name.len() > 2 ==> xml::is_name_char(name[2]),
        name.len() > 3 ==> xml::is_name_char(name[3]),
        name.len() > 4 ==> xml::is_name_char(name[4]),
        name.len() > 5 ==> xml::is_name_char(name[5]),
        name.len() > 6 ==> xml::is_name_char(name[6]),
        name.len() > 7 ==> xml::is_name_char(name[7]),
        name.len() > 8 ==> xml::is_name_char(name[8]),
        name.len() > 9 ==> xml::is_name_char(name[9]),
        name.len() > 10 ==> xml::is_name_char(name[10]),
    ensures
        is_plain_name(name),
{
    assert forall|i: int| 0 <= i < name.len() implies xml::is_name_char(#[trigger] name[i]) by {
        assert(i == 0 || i == 1 || i == 2 || i == 3 || i == 4 || i == 5 || i == 6 || i == 7 || i
            == 8 || i == 9 || i == 10);
    }
}

/// What holds of a name of the writer's own in a scope.
spec fn is_own_name(scope: Scope, key: Seq<char>, uri: Seq<char>, name: Seq<char>) -> bool {
    &&& xml::is_name(key)
    &&& xml::resolved(scope, key, true) == xml::ResolutionView::Bound(uri)
    &&& xml::resolved(scope, key, false) == xml::ResolutionView::Bound(uri)
    &&& xml::local_part(key) == name
    &&& xml::declared_prefix(key) is None
}

/// A name with the prefix `rdf`.
proof fn lemma_rdf_name(scope: Scope, table: Seq<NamespaceView>, name: Seq<char>, key: Seq<char>)
    requires
        serves(scope, table),
        is_plain_name(name),
        key == "rdf"@ + ":"@ + name,
    ensures
        is_own_name(scope, key, RDF_NAMESPACE@, name),
{
    lemma_own_namespaces();
    lemma_own_prefixes();
    lemma_prefixed(scope, "rdf"@, RDF_NAMESPACE@, name);
    reveal_strlit("rdf");
    reveal_strlit("xmlns");
    reveal_strlit("xmlns:");
    assert(key[0] == 'r');
    if "xmlns:"@.is_prefix_of(key) {
        assert(key.subrange(0, 6)[0] == 'x');
    }
}

/// The attribute that gives a language.
proof fn lemma_language_name(scope: Scope, table: Seq<NamespaceView>)
    requires
        serves(scope, table),
    ensures
        is_own_name(scope, "xml:lang"@, XML_NAMESPACE@, "lang"@),
{
    lemma_own_namespaces();
    lemma_own_prefixes();
    lemma_own_names();
    lemma_prefixed(scope, "xml"@, XML_NAMESPACE@, "lang"@);
    reveal_strlit("xml");
    reveal_strlit(":");
    reveal_strlit("lang");
    reveal_strlit("xml:lang");
    reveal_strlit("xmlns");
    reveal_strlit("xmlns:");
    assert("xml:lang"@ =~= "xml"@ + ":"@ + "lang"@);
    if "xmlns:"@.is_prefix_of("xml:lang"@) {
        assert("xml:lang"@.subrange(0, 6)[3] == 'n');
    }
}

/// The names that the writer uses by itself resolve as they should.
proof fn lemma_rdf_names(scope: Scope, table: Seq<NamespaceView>)
    requires
        serves(scope, table),
    ensures
        is_own_name(scope, "rdf:resource"@, RDF_NAMESPACE@, "resource"@),
        is_own_name(scope, "rdf:parseType"@, RDF_NAMESPACE@, "parseType"@),
        is_own_name(scope, "rdf:value"@, RDF_NAMESPACE@, "value"@),
        is_own_name(scope, "rdf:li"@, RDF_NAMESPACE@, "li"@),
        is_own_name(scope, "rdf:Bag"@, RDF_NAMESPACE@, "Bag"@),
        is_own_name(scope, "rdf:Seq"@, RDF_NAMESPACE@, "Seq"@),
        is_own_name(scope, "rdf:Alt"@, RDF_NAMESPACE@, "Alt"@),
        is_own_name(scope, "rdf:Description"@, RDF_NAMESPACE@, "Description"@),
        is_own_name(scope, "rdf:about"@, RDF_NAMESPACE@, "about"@),
{
    lemma_own_names();
    reveal_strlit("rdf");
    reveal_strlit(":");
    reveal_strlit("resource");
    reveal_strlit("rdf:resource");
    assert("rdf:resource"@ =~= "rdf"@ + ":"@ + "resource"@);
    lemma_rdf_name(scope, table, "resource"@, "rdf:resource"@);
    reveal_strlit("parseType");
    reveal_strlit("rdf:parseType");
    assert("rdf:parseType"@ =~= "rdf"@ + ":"@ + "parseType"@);
    lemma_rdf_name(scope, table, "parseType"@, "rdf:parseType"@);
    reveal_strlit("value");
    reveal_strlit("rdf:value");
    assert("rdf:value"@ =~= "rdf"@ + ":"@ + "value"@);
    lemma_rdf_name(scope, table, "value"@, "rdf:value"@);
    reveal_strlit("li");
    reveal_strlit("rdf:li");
    assert("rdf:li"@ =~= "rdf"@ + ":"@ + "li"@);
    lemma_rdf_name(scope, table, "li"@, "rdf:li"@);
    reveal_strlit("Bag");
    reveal_strlit("rdf:Bag");
    assert("rdf:Bag"@ =~= "rdf"@ + ":"@ + "Bag"@);
    lemma_rdf_name(scope, table, "Bag"@, "rdf:Bag"@);
    reveal_strlit("Seq");
    reveal_strlit("rdf:Seq");
    assert("rdf:Seq"@ =~= "rdf"@ + ":"@ + "Seq"@);
    lemma_rdf_name(scope, table, "Seq"@, "rdf:Seq"@);
    reveal_strlit("Alt");
    reveal_strlit("rdf:Alt");
    assert("rdf:Alt"@ =~= "rdf"@ + ":"@ + "Alt"@);
    lemma_rdf_name(scope, table, "Alt"@, "rdf:Alt"@);
    reveal_strlit("Description");
    reveal_strlit("rdf:Description");
    assert("rdf:Description"@ =~= "rdf"@ + ":"@ + "Description"@);
    lemma_rdf_name(scope, table, "Description"@, "rdf:Description"@);
    reveal_strlit("about");
    reveal_strlit("rdf:about");
    assert("rdf:about"@ =~= "rdf"@ + ":"@ + "about"@);
    lemma_rdf_name(scope, table, "about"@, "rdf:about"@);
}

/// The attribute that a value needs, as it is found.
spec fn content_shape(value: ValueView) -> Seq<ShapeAttr> {
    match value {
        ValueView::Uri(uri) => seq![
            ShapeAttr { ns: Some(RDF_NAMESPACE@), local: "resource"@, value: uri },
        ],
        ValueView::Structured(_) => seq![
            ShapeAttr { ns: Some(RDF_NAMESPACE@), local: "parseType"@, value: "Resource"@ },
        ],
        _ => Seq::empty(),
    }
}

/// No attributes are found where none were written.
proof fn lemma_no_attrs(scope: Scope)
    ensures
        are_found(scope, Seq::empty(), Seq::empty()),
{
    assert(writer::escaped_attrs(Seq::empty()) =~= Seq::<(Seq<char>, Seq<char>)>::empty());
}

/// The attributes of a value are found.
proof fn lemma_value_attrs(
    scope: Scope,
    table: Seq<NamespaceView>,
    lang: Option<Seq<char>>,
    value: ValueView,
)
    requires
        serves(scope, table),
    ensures
        are_found(
            scope,
            writer::language_attrs(lang) + writer::content_of(table, value).attrs,
            language_shape(lang) + content_shape(value),
        ),
        are_found(scope, writer::language_attrs(lang), language_shape(lang)),
{
    lemma_language_name(scope, table);
    lemma_rdf_names(scope, table);
    lemma_no_attrs(scope);
    let none = Seq::<(Seq<char>, Seq<char>)>::empty();
    let no_shape = Seq::<ShapeAttr>::empty();
    let first = writer::language_attrs(lang);
    let first_shape = language_shape(lang);
    if let Some(lang) = lang {
        lemma_one_more(scope, none, no_shape, "xml:lang"@, lang, XML_NAMESPACE@);
        assert(none.push(("xml:lang"@, lang)) =~= first);
        assert(no_shape.push(
            ShapeAttr { ns: Some(XML_NAMESPACE@), local: "lang"@, value: lang },
        ) =~= first_shape);
    }
    let rest = writer::content_of(table, value).attrs;
    let rest_shape = content_shape(value);
    reveal_strlit("xml:lang");
    reveal_strlit("rdf:resource");
    reveal_strlit("rdf:parseType");
    match value {
        ValueView::Uri(uri) => {
            lemma_one_more(scope, first, first_shape, "rdf:resource"@, uri, RDF_NAMESPACE@);
            assert(first.push(("rdf:resource"@, uri)) =~= first + rest);
            assert(first_shape.push(rest_shape[0]) =~= first_shape + rest_shape);
        },
        ValueView::Structured(_) => {
            lemma_one_more(
                scope,
                first,
                first_shape,
                "rdf:parseType"@,
                "Resource"@,
                RDF_NAMESPACE@,
            );
            assert(first.push(("rdf:parseType"@, "Resource"@)) =~= first + rest);
            assert(first_shape.push(rest_shape[0]) =~= first_shape + rest_shape);
        },
        _ => {
            assert(first + rest =~= first);
            assert(first_shape + rest_shape =~= first_shape);
        },
    }
}

/// What a reader makes of the attributes of a value.
proof fn lemma_lookup(attrs: Seq<ShapeAttr>, lang: Option<Seq<char>>, value: ValueView)
    requires
        attrs == language_shape(lang) + content_shape(value),
    ensures
        reader::attr_from(attrs, XML_NAMESPACE@, "lang"@, 0) == lang,
        reader::attr_from(attrs, RDF_NAMESPACE@, "parseType"@, 0) == (if value is Structured {
            Some("Resource"@)
        } else {
            None
        }),
        reader::attr_from(attrs, RDF_NAMESPACE@, "resource"@, 0) == (match value {
            ValueView::Uri(uri) => Some(uri),
            _ => None,
        }),
        reader::attr_from(attrs, RDF_NAMESPACE@, "value"@, 0) is None,
        reader::data_properties(attrs) == Seq::<PropertyView>::empty(),
{
    lemma_own_namespaces();
    reveal_strlit("parseType");
    reveal_strlit("resource");
    reveal_strlit("value");
    reveal_with_fuel(reader::attr_from, 3);
    reveal_with_fuel(reader::data_properties, 3);
    assert("parseType"@.len() == 9 && "resource"@.len() == 8 && "value"@.len() == 5);
    let n = language_shape(lang).len() as int;
    if content_shape(value).len() > 0 {
        assert(attrs[n] == content_shape(value)[0]);
    }
    if n > 0 {
        assert(attrs[0] == language_shape(lang)[0]);
    }
    assert(reader::attr_from(attrs, RDF_NAMESPACE@, "parseType"@, 0) == reader::attr_from(
        attrs,
        RDF_NAMESPACE@,
        "parseType"@,
        n,
    ));
    assert(reader::attr_from(attrs, RDF_NAMESPACE@, "resource"@, 0) == reader::attr_from(
        attrs,
        RDF_NAMESPACE@,
        "resource"@,
        n,
    ));
}

/// Whether a value comes back from an element with qualifiers.
spec fn is_value_back(
    scope: Scope,
    w: Written,
    value: ValueView,
    qualifiers: Seq<PropertyView>,
) -> bool {
    &&& relexing::is_plain(scope, w)
    &&& relexing::inner_scope(scope, w) == scope
    &&& reader::value_of(relexing::found(scope, w)) == Ok::<
        (ValueView, Seq<PropertyView>),
        ErrorView,
    >((value, qualifiers))
}

/// Whether the name of an element is one that can be written and resolves.
spec fn is_known(scope: Scope, name: Seq<char>) -> bool {
    xml::is_name(name) && !(xml::resolved(scope, name, true) is Unknown)
}

/// Attributes that declare nothing leave the scope as it is.
proof fn lemma_same_scope(scope: Scope, w: Written, shapes: Seq<ShapeAttr>)
    requires
        are_found(scope, w.attrs, shapes),
    ensures
        relexing::inner_scope(scope, w) == scope,
        relexing::found(scope, w).attrs == shapes,
        relexing::found(scope, w).text == w.text,
        relexing::found(scope, w).local == xml::local_part(w.name),
        relexing::found(scope, w).ns == relexing::uri_of(xml::resolved(scope, w.name, true)),
        relexing::found(scope, w).children == relexing::all_found(scope, w.children),
        is_known(scope, w.name) && relexing::are_plain(scope, w.children) ==> relexing::is_plain(
            scope,
            w,
        ),
{
    assert(relexing::inner_scope(scope, w) =~= scope);
}

/// An element that only holds others, without attributes.
proof fn lemma_holder(scope: Scope, name: Seq<char>, children: Seq<Written>)
    requires
        is_known(scope, name),
        relexing::are_plain(scope, children),
    ensures
        relexing::is_plain(scope, writer::holder(name, Seq::empty(), children)),
        relexing::found(scope, writer::holder(name, Seq::empty(), children)) == (Shape {
            ns: relexing::uri_of(xml::resolved(scope, name, true)),
            local: xml::local_part(name),
            attrs: Seq::empty(),
            text: Seq::empty(),
            children: relexing::all_found(scope, children),
        }),
{
    let w = writer::holder(name, Seq::empty(), children);
    lemma_no_attrs(scope);
    lemma_same_scope(scope, w, Seq::empty());
}

/// One element among elements.
proof fn lemma_single(scope: Scope, w: Written)
    ensures
        relexing::are_plain(scope, seq![w]) == relexing::is_plain(scope, w),
        relexing::all_found(scope, seq![w]) == seq![relexing::found(scope, w)],
{
    assert(seq![w].drop_first() =~= Seq::<Written>::empty());
    reveal_with_fuel(relexing::are_plain, 2);
    reveal_with_fuel(relexing::all_found, 2);
    assert(relexing::all_found(scope, seq![w]) =~= seq![relexing::found(scope, w)]);
}

/// A value without general qualifiers comes back.
proof fn lemma_value(
    scope: Scope,
    table: Seq<NamespaceView>,
    name: Seq<char>,
    lang: Option<Seq<char>>,
    value: ValueView,
)
    requires
        serves(scope, table),
        is_good_table(table),
        is_known(scope, name),
        lists_value(table_uris(table), value),
        value_survives(value),
    ensures
        is_value_back(
            scope,
            writer::value_element(name, lang, writer::content_of(table, value)),
            value,
            language_part(lang),
        ),
    decreases value,
{
    let content = writer::content_of(table, value);
    let w = writer::value_element(name, lang, content);
    let attrs = language_shape(lang) + content_shape(value);
    lemma_value_attrs(scope, table, lang, value);
    lemma_same_scope(scope, w, attrs);
    lemma_lookup(attrs, lang, value);
    let e = relexing::found(scope, w);
    assert(reader::lang_qualifiers(e) =~= language_part(lang));
    match value {
        ValueView::Simple(_) | ValueView::Uri(_) => {
            assert(reader::element_qualifiers(e) =~= language_part(lang));
        },
        ValueView::Structured(fields) => {
            lemma_properties(scope, table, fields);
            assert(reader::data_properties(e.attrs) + fields =~= fields);
        },
        ValueView::Array(kind, items) => {
            let container = writer::holder(
                writer::container_name(kind),
                Seq::empty(),
                writer::written_items(table, items),
            );
            lemma_items(scope, table, items);
            lemma_rdf_names(scope, table);
            lemma_holder(
                scope,
                writer::container_name(kind),
                writer::written_items(table, items),
            );
            lemma_single(scope, container);
            reveal_strlit("Bag");
            reveal_strlit("Seq");
            reveal_strlit("Alt");
            let n = relexing::found(scope, container);
            assert(e.children =~= seq![n]);
            if kind is Alt {
                lemma_no_repetition(items);
            }
            assert(n.children == relexing::all_found(scope, writer::written_items(table, items)));
            assert(reader::items_of(n.children) == Ok::<Seq<ItemView>, ErrorView>(items));
            assert("Bag"@[0] == 'B' && "Seq"@[0] == 'S' && "Alt"@[0] == 'A');
            assert(n.local == (match kind {
                ArrayKind::Bag => "Bag"@,
                ArrayKind::Sequence => "Seq"@,
                ArrayKind::Alt => "Alt"@,
            }));
            assert(reader::node_value(n) == Ok::<(ValueView, Seq<PropertyView>), ErrorView>(
                (value, Seq::empty()),
            ));
            assert(reader::element_qualifiers(e) + Seq::<PropertyView>::empty() =~= language_part(
                lang,
            ));
        },
    }
}

/// No language is repeated where all are different.
proof fn lemma_no_repetition(items: Seq<ItemView>)
    requires
        model::unique_languages(items),
    ensures
        reader::repeated_language(items) is None,
    decreases items.len(),
{
    if items.len() > 0 {
        let before = items.drop_last();
        assert forall|i: int, j: int|
            #![trigger before[i], before[j]]
            0 <= i < j < before.len() implies (match model::language(before[i].qualifiers) {
            Some(lang) => !model::in_language(before[j], lang),
            None => true,
        }) by {
            assert(before[i] == items[i] && before[j] == items[j]);
        }
        lemma_no_repetition(before);
        if let Some(lang) = model::language(items.last().qualifiers) {
            if reader::has_language(before, lang) {
                let i = choose|i: int|
                    0 <= i < before.len() && model::in_language(#[trigger] before[i], lang);
                assert(before[i] == items[i]);
                assert(model::in_language(items[items.len() - 1], model::language(
                    items[i].qualifiers,
                )->Some_0));
            }
        }
    }
}

/// The language that comes first is the qualifier that it was taken from.
proof fn lemma_lead(qualifiers: Seq<PropertyView>)
    ensures
        qualifiers == language_part(writer::lead_language(qualifiers)) + general(qualifiers),
{
    if let Some(lang) = writer::lead_language(qualifiers) {
        assert(qualifiers[0].qualifiers =~= Seq::<PropertyView>::empty());
        assert(qualifiers[0] == model::language_qualifier(lang));
    }
    assert(qualifiers =~= language_part(writer::lead_language(qualifiers)) + general(qualifiers));
}

/// The qualifiers that are not written as an attribute.
spec fn general(qualifiers: Seq<PropertyView>) -> Seq<PropertyView> {
    if writer::lead_count(qualifiers) == 1 {
        qualifiers.drop_first()
    } else {
        qualifiers
    }
}

/// Whether properties come back from elements.
spec fn are_back(scope: Scope, s: Seq<Written>, properties: Seq<PropertyView>) -> bool {
    let found = relexing::all_found(scope, s);
    &&& relexing::are_plain(scope, s)
    &&& s.len() == properties.len()
    &&& found.len() == s.len()
    &&& reader::properties_of(found) == Ok::<Seq<PropertyView>, ErrorView>(properties)
    &&& forall|i: int|
        0 <= i < found.len() ==> (#[trigger] found[i]).ns == Some(properties[i].namespace)
            && found[i].local == properties[i].name
}

/// Where none of the elements is an `rdf:value`, the qualifiers among them are their properties.
proof fn lemma_qualifiers_among(s: Seq<Shape>)
    requires
        forall|i: int|
            0 <= i < s.len() ==> !reader::has_name(#[trigger] s[i], RDF_NAMESPACE@, "value"@),
    ensures
        reader::qualifiers_among(s) == reader::properties_of(s),
    decreases s.len(),
{
    if s.len() > 0 {
        let rest = s.drop_first();
        assert forall|i: int| 0 <= i < rest.len() implies !reader::has_name(
            #[trigger] rest[i],
            RDF_NAMESPACE@,
            "value"@,
        ) by {
            assert(rest[i] == s[i + 1]);
        }
        lemma_qualifiers_among(rest);
    }
}

/// A value with general qualifiers comes back with them.
proof fn lemma_qualified(
    scope: Scope,
    table: Seq<NamespaceView>,
    name: Seq<char>,
    qualifiers: Seq<PropertyView>,
    value: ValueView,
    content: Content,
    others: Seq<Written>,
)
    requires
        serves(scope, table),
        is_known(scope, name),
        is_value_back(
            scope,
            writer::value_element(name, writer::lead_language(qualifiers), content),
            value,
            language_part(writer::lead_language(qualifiers)),
        ),
        is_value_back(
            scope,
            writer::value_element("rdf:value"@, None, content),
            value,
            language_part(None),
        ),
        are_back(scope, others, general(qualifiers)),
        no_value_among(qualifiers),
    ensures
        is_value_back(
            scope,
            writer::qualified_element(name, writer::lead_language(qualifiers), content, others),
            value,
            qualifiers,
        ),
{
    let lang = writer::lead_language(qualifiers);
    let rest = general(qualifiers);
    lemma_lead(qualifiers);
    if others.len() == 0 {
        assert(language_part(lang) + rest =~= language_part(lang));
    } else {
        let inner = writer::value_element("rdf:value"@, None, content);
        let parts = seq![inner] + others;
        let node = writer::holder("rdf:Description"@, Seq::empty(), parts);
        let w = writer::holder(name, writer::language_attrs(lang), seq![node]);
        let shapes = relexing::all_found(scope, others);
        lemma_rdf_names(scope, table);
        assert(parts.drop_first() =~= others);
        assert(relexing::are_plain(scope, parts));
        lemma_holder(scope, "rdf:Description"@, parts);
        lemma_single(scope, node);
        let simple = ValueView::Simple(Seq::empty());
        lemma_value_attrs(scope, table, lang, simple);
        let attrs = language_shape(lang);
        assert(attrs =~= language_shape(lang) + content_shape(simple));
        lemma_lookup(attrs, lang, simple);
        lemma_same_scope(scope, w, attrs);
        let e = relexing::found(scope, w);
        let n = relexing::found(scope, node);
        let first = relexing::found(scope, inner);
        assert(n.children =~= seq![first] + shapes);
        assert(reader::has_name(first, RDF_NAMESPACE@, "value"@));
        assert(reader::value_from(n.children, 0) == Some(0int));
        assert(n.children.drop_first() =~= shapes);
        assert forall|i: int| 0 <= i < shapes.len() implies !reader::has_name(
            #[trigger] shapes[i],
            RDF_NAMESPACE@,
            "value"@,
        ) by {
            let k = if writer::lead_count(qualifiers) == 1 {
                i + 1
            } else {
                i
            };
            assert(rest[i] == qualifiers[k]);
        }
        lemma_qualifiers_among(shapes);
        reveal_strlit("Bag");
        reveal_strlit("Seq");
        reveal_strlit("Alt");
        reveal_strlit("Description");
        assert(reader::data_properties(n.attrs) =~= Seq::<PropertyView>::empty());
        assert(rest + Seq::<PropertyView>::empty() =~= rest);
        assert(reader::description_value(n) == Ok::<(ValueView, Seq<PropertyView>), ErrorView>(
            (value, rest),
        ));
        assert(reader::node_value(n) == Ok::<(ValueView, Seq<PropertyView>), ErrorView>(
            (value, rest),
        ));
        assert(e.children =~= seq![n]);
        assert(reader::lang_qualifiers(e) =~= language_part(lang));
        assert(reader::element_qualifiers(e) =~= language_part(lang));
    }
}

/// A property comes back.
proof fn lemma_property(scope: Scope, table: Seq<NamespaceView>, p: PropertyView)
    requires
        serves(scope, table),
        is_good_table(table),
        lists(table_uris(table), p),
        survives(p),
    ensures
        relexing::is_plain(scope, writer::written(table, p)),
        relexing::found(scope, writer::written(table, p)).ns == Some(p.namespace),
        relexing::found(scope, writer::written(table, p)).local == p.name,
        reader::property_of(relexing::found(scope, writer::written(table, p))) == Ok::<
            PropertyView,
            ErrorView,
        >(p),
    decreases p,
{
    let name = writer::qualified_name(table, p.namespace, p.name);
    lemma_qualified_name(scope, table, p.namespace, p.name);
    lemma_rdf_names(scope, table);
    lemma_value(scope, table, name, writer::lead_language(p.qualifiers), p.value);
    lemma_value(scope, table, "rdf:value"@, None, p.value);
    if writer::lead_count(p.qualifiers) == 1 {
        lemma_properties(scope, table, p.qualifiers.drop_first());
    } else {
        lemma_properties(scope, table, p.qualifiers);
    }
    lemma_qualified(
        scope,
        table,
        name,
        p.qualifiers,
        p.value,
        writer::content_of(table, p.value),
        writer::written_all(table, general(p.qualifiers)),
    );
}

/// Properties come back.
proof fn lemma_properties(scope: Scope, table: Seq<NamespaceView>, s: Seq<PropertyView>)
    requires
        serves(scope, table),
        is_good_table(table),
        lists_all(table_uris(table), s),
        all_survive(s),
    ensures
        are_back(scope, writer::written_all(table, s), s),
    decreases s,
{
    let all = writer::written_all(table, s);
    let found = relexing::all_found(scope, all);
    if s.len() == 0 {
        assert(s =~= Seq::<PropertyView>::empty());
    } else {
        let rest = s.drop_first();
        lemma_property(scope, table, s[0]);
        lemma_properties(scope, table, rest);
        let after = writer::written_all(table, rest);
        assert(all.drop_first() =~= after);
        let found_after = relexing::all_found(scope, after);
        assert(found.drop_first() =~= found_after);
        assert(seq![s[0]] + rest =~= s);
        assert forall|i: int| 0 <= i < found.len() implies (#[trigger] found[i]).ns == Some(
            s[i].namespace,
        ) && found[i].local == s[i].name by {
            if i > 0 {
                assert(found[i] == found_after[i - 1]);
            }
        }
    }
}

/// Items come back.
proof fn lemma_items(scope: Scope, table: Seq<NamespaceView>, s: Seq<ItemView>)
    requires
        serves(scope, table),
        is_good_table(table),
        lists_items(table_uris(table), s),
        items_survive(s),
    ensures
        relexing::are_plain(scope, writer::written_items(table, s)),
        reader::items_of(relexing::all_found(scope, writer::written_items(table, s))) == Ok::<
            Seq<ItemView>,
            ErrorView,
        >(s),
    decreases s,
{
    let all = writer::written_items(table, s);
    let found = relexing::all_found(scope, all);
    if s.len() == 0 {
        assert(s =~= Seq::<ItemView>::empty());
    } else {
        let item = s[0];
        let rest = s.drop_first();
        assert(lists_all(table_uris(table), item.qualifiers));
        assert(all_survive(item.qualifiers));
        lemma_rdf_names(scope, table);
        lemma_value(scope, table, "rdf:li"@, writer::lead_language(item.qualifiers), item.value);
        lemma_value(scope, table, "rdf:value"@, None, item.value);
        if writer::lead_count(item.qualifiers) == 1 {
            lemma_properties(scope, table, item.qualifiers.drop_first());
        } else {
            lemma_properties(scope, table, item.qualifiers);
        }
        lemma_qualified(
            scope,
            table,
            "rdf:li"@,
            item.qualifiers,
            item.value,
            writer::content_of(table, item.value),
            writer::written_all(table, general(item.qualifiers)),
        );
        assert(all[0] == writer::written_item(table, item));
        assert(relexing::is_plain(scope, all[0]));
        lemma_items(scope, table, rest);
        let after = writer::written_items(table, rest);
        assert(all.drop_first() =~= after);
        assert(found.drop_first() =~= relexing::all_found(scope, after));
        assert(found[0] == relexing::found(scope, all[0]));
        assert(reader::has_name(found[0], RDF_NAMESPACE@, "li"@));
        assert(reader::item_of(found[0]) == Ok::<ItemView, ErrorView>(item));
        assert(seq![s[0]] + rest =~= s);
    }
}

// ---------------------------------------------------------------------------------------------
// The whole graph
// ---------------------------------------------------------------------------------------------

/// A text without characters that are written as references is written as it is.
proof fn lemma_written_as_it_is(text: Seq<char>)
    requires
        forall|i: int| 0 <= i < text.len() ==> xml::attribute_entity(#[trigger] text[i]) is None,
    ensures
        xml::escaped_attribute(text) == text,
    decreases text.len(),
{
    if text.len() > 0 {
        assert forall|i: int| 0 <= i < text.drop_last().len() implies xml::attribute_entity(
            #[trigger] text.drop_last()[i],
        ) is None by {
            assert(text.drop_last()[i] == text[i]);
        }
        lemma_written_as_it_is(text.drop_last());
        assert(text.drop_last() + seq![text.last()] =~= text);
    } else {
        assert(xml::escaped_attribute(text) =~= text);
    }
}

/// The namespaces that the writer declares by itself are written as they are, and can be declared.
proof fn lemma_own_uris()
    ensures
        xml::escaped_attribute(RDF_NAMESPACE@) == RDF_NAMESPACE@,
        xml::escaped_attribute(XMPMETA_NAMESPACE@) == XMPMETA_NAMESPACE@,
        RDF_NAMESPACE@ != XMLNS_NAMESPACE@,
        XMPMETA_NAMESPACE@ != XMLNS_NAMESPACE@,
        XMPMETA_NAMESPACE@ != XML_NAMESPACE@,
        XMPMETA_NAMESPACE@ != RDF_NAMESPACE@,
        XMPMETA_NAMESPACE@.len() > 0,
{
    reveal_strlit("http://www.w3.org/1999/02/22-rdf-syntax-ns#");
    reveal_strlit("http://www.w3.org/XML/1998/namespace");
    reveal_strlit("http://www.w3.org/2000/xmlns/");
    reveal_strlit("adobe:ns:meta/");
    assert(RDF_NAMESPACE@.len() == 43);
    assert(XML_NAMESPACE@.len() == 36);
    assert(XMLNS_NAMESPACE@.len() == 29);
    assert(XMPMETA_NAMESPACE@.len() == 14);
    assert forall|i: int| 0 <= i < 43 implies xml::attribute_entity(#[trigger] RDF_NAMESPACE@[i])
        is None by {}
    lemma_written_as_it_is(RDF_NAMESPACE@);
    assert forall|i: int| 0 <= i < 14 implies xml::attribute_entity(
        #[trigger] XMPMETA_NAMESPACE@[i],
    ) is None by {}
    lemma_written_as_it_is(XMPMETA_NAMESPACE@);
}

/// The bindings that a table declares.
spec fn table_bindings(table: Seq<NamespaceView>) -> Scope {
    table.map_values(|n: NamespaceView| (n.prefix, n.uri))
}

/// A later part of a scope comes before an earlier one.
proof fn lemma_binding_add(a: Scope, b: Scope, prefix: Seq<char>)
    ensures
        xml::binding(a + b, prefix) == (match xml::binding(b, prefix) {
            Some(uri) => Some(uri),
            None => xml::binding(a, prefix),
        }),
    decreases b.len(),
{
    if b.len() == 0 {
        assert(a + b =~= a);
    } else {
        assert((a + b).drop_last() =~= a + b.drop_last());
        lemma_binding_add(a, b.drop_last(), prefix);
    }
}

/// A table gives each of its prefixes the namespace of its entry, and binds no other.
proof fn lemma_table_bindings(table: Seq<NamespaceView>, prefix: Seq<char>)
    requires
        is_good_table(table),
    ensures
        forall|i: int|
            0 <= i < table.len() && (#[trigger] table[i]).prefix == prefix ==> xml::binding(
                table_bindings(table),
                prefix,
            ) == Some(table[i].uri),
        (forall|i: int| 0 <= i < table.len() ==> (#[trigger] table[i]).prefix != prefix)
            ==> xml::binding(table_bindings(table), prefix) is None,
    decreases table.len(),
{
    if table.len() > 0 {
        let before = table.drop_last();
        assert(is_good_table(before)) by {
            assert forall|i: int| 0 <= i < before.len() implies is_usable(
                (#[trigger] before[i]).prefix,
            ) && is_declared_uri(before[i].uri) && before[i].prefix != "rdf"@ && before[i].prefix
                != "x"@ by {
                assert(before[i] == table[i]);
            }
            assert forall|i: int, j: int| 0 <= i < j < before.len() implies (
            #[trigger] before[i]).prefix != (#[trigger] before[j]).prefix by {
                assert(before[i] == table[i] && before[j] == table[j]);
            }
        }
        lemma_table_bindings(before, prefix);
        assert(table_bindings(table).drop_last() =~= table_bindings(before));
        assert forall|i: int|
            0 <= i < table.len() && (#[trigger] table[i]).prefix == prefix implies xml::binding(
            table_bindings(table),
            prefix,
        ) == Some(table[i].uri) by {
            if i < table.len() - 1 {
                assert(before[i] == table[i]);
                assert(table[table.len() - 1].prefix != prefix);
            }
        }
        if forall|i: int| 0 <= i < table.len() ==> (#[trigger] table[i]).prefix != prefix {
            assert forall|i: int| 0 <= i < before.len() implies (#[trigger] before[i]).prefix
                != prefix by {
                assert(before[i] == table[i]);
            }
            assert(table[table.len() - 1].prefix != prefix);
        }
    }
}

/// A key that declares a prefix.
proof fn lemma_declaring_key(prefix: Seq<char>)
    requires
        prefix.len() > 0,
        has_prefix_chars(prefix),
    ensures
        xml::declared_prefix("xmlns:"@ + prefix) == Some(prefix),
        xml::is_name("xmlns:"@ + prefix),
{
    reveal_strlit("xmlns:");
    reveal_strlit("xmlns");
    let key = "xmlns:"@ + prefix;
    assert("xmlns:"@.len() == 6 && "xmlns"@.len() == 5);
    assert(key.subrange(0, 6) =~= "xmlns:"@);
    assert(key.skip(6) =~= prefix);
    assert forall|i: int| 0 <= i < key.len() implies xml::is_name_char(#[trigger] key[i]) by {
        if i >= 6 {
            assert(key[i] == prefix[i - 6]);
            assert(writer::is_prefix_char(prefix[i - 6]));
        } else {
            assert(key[i] == "xmlns:"@[i]);
        }
    }
}

/// What the attributes of the description declare, and what is found of them.
proof fn lemma_description_attrs(scope: Scope, table: Seq<NamespaceView>)
    requires
        is_good_table(table),
        is_own_name(scope, "rdf:about"@, RDF_NAMESPACE@, "about"@),
    ensures
        ({
            let attrs = seq![("rdf:about"@, Seq::<char>::empty())] + writer::declaration_attrs(
                table,
            );
            &&& xml::declarations(writer::escaped_attrs(attrs)) == table_bindings(table)
            &&& relexing::found_attrs(scope, attrs) == seq![
                ShapeAttr {
                    ns: Some(RDF_NAMESPACE@),
                    local: "about"@,
                    value: Seq::<char>::empty(),
                },
            ]
            &&& xml::are_attributes(writer::escaped_attrs(attrs))
            &&& relexing::are_resolvable(scope, attrs)
        }),
    decreases table.len(),
{
    let empty = Seq::<char>::empty();
    let first = seq![("rdf:about"@, empty)];
    let attrs = first + writer::declaration_attrs(table);
    let escaped = writer::escaped_attrs(attrs);
    let shape = seq![ShapeAttr { ns: Some(RDF_NAMESPACE@), local: "about"@, value: empty }];
    if table.len() == 0 {
        lemma_no_attrs(scope);
        let none = Seq::<(Seq<char>, Seq<char>)>::empty();
        lemma_one_more(scope, none, Seq::empty(), "rdf:about"@, empty, RDF_NAMESPACE@);
        assert(none.push(("rdf:about"@, empty)) =~= attrs);
        assert(Seq::<ShapeAttr>::empty().push(shape[0]) =~= shape);
        assert(table_bindings(table) =~= none);
    } else {
        let before = table.drop_last();
        let entry = table.last();
        let key = "xmlns:"@ + entry.prefix;
        assert(table[table.len() - 1] == entry);
        assert(is_good_table(before)) by {
            assert forall|i: int| 0 <= i < before.len() implies is_usable(
                (#[trigger] before[i]).prefix,
            ) && is_declared_uri(before[i].uri) && before[i].prefix != "rdf"@ && before[i].prefix
                != "x"@ by {
                assert(before[i] == table[i]);
            }
            assert forall|i: int, j: int| 0 <= i < j < before.len() implies (
            #[trigger] before[i]).prefix != (#[trigger] before[j]).prefix by {
                assert(before[i] == table[i] && before[j] == table[j]);
            }
        }
        lemma_description_attrs(scope, before);
        lemma_declaring_key(entry.prefix);
        lemma_written_as_it_is(entry.uri);
        let fewer = first + writer::declaration_attrs(before);
        assert(attrs.drop_last() =~= fewer);
        assert(attrs.last() == (key, entry.uri));
        assert(escaped.drop_last() =~= writer::escaped_attrs(fewer));
        assert(escaped.last() == (key, entry.uri));
        assert(table_bindings(table) =~= table_bindings(before).push((entry.prefix, entry.uri)));
        lemma_quotable(entry.uri);
        assert forall|i: int|
            0 <= i < escaped.len() implies xml::is_name((#[trigger] escaped[i]).0)
            && xml::is_quotable(escaped[i].1) by {
            if i < fewer.len() {
                assert(escaped[i] == writer::escaped_attrs(fewer)[i]);
            }
        }
        assert forall|i: int, j: int|
            0 <= i < j < escaped.len() implies (#[trigger] escaped[i]).0 != (
        #[trigger] escaped[j]).0 by {
            assert(escaped[i] == writer::escaped_attrs(fewer)[i]);
            if j < fewer.len() {
                assert(escaped[j] == writer::escaped_attrs(fewer)[j]);
            } else if i == 0 {
                reveal_strlit("rdf:about");
                reveal_strlit("xmlns:");
                assert("rdf:about"@[0] == 'r');
                assert(key[0] == 'x');
            } else {
                let other = table[i - 1].prefix;
                assert(escaped[i].0 == "xmlns:"@ + other);
                lemma_declaring_key(other);
                assert(table[i - 1].prefix != table[table.len() - 1].prefix);
            }
        }
        assert forall|i: int|
            0 <= i < attrs.len() implies xml::declared_prefix((#[trigger] attrs[i]).0) is Some
            || !(xml::resolved(scope, attrs[i].0, false) is Unknown) by {
            if i < fewer.len() {
                assert(attrs[i] == fewer[i]);
            }
        }
    }
}

/// One attribute that declares a prefix.
proof fn lemma_one_declaration(scope: Scope, prefix: Seq<char>, uri: Seq<char>, key: Seq<char>)
    requires
        prefix.len() > 0,
        has_prefix_chars(prefix),
        key == "xmlns:"@ + prefix,
        xml::escaped_attribute(uri) == uri,
    ensures
        xml::declarations(writer::escaped_attrs(seq![(key, uri)])) == seq![(prefix, uri)],
        relexing::found_attrs(scope, seq![(key, uri)]) == Seq::<ShapeAttr>::empty(),
        xml::are_attributes(writer::escaped_attrs(seq![(key, uri)])),
        relexing::are_resolvable(scope, seq![(key, uri)]),
{
    let attrs = seq![(key, uri)];
    let escaped = writer::escaped_attrs(attrs);
    lemma_declaring_key(prefix);
    lemma_quotable(uri);
    assert(escaped =~= seq![(key, uri)]);
    assert(escaped.drop_last() =~= Seq::<(Seq<char>, Seq<char>)>::empty());
    assert(attrs.drop_last() =~= Seq::<(Seq<char>, Seq<char>)>::empty());
    reveal_with_fuel(xml::declarations, 2);
    reveal_with_fuel(relexing::found_attrs, 2);
    assert(xml::declarations(escaped) =~= seq![(prefix, uri)]);
}

/// The table of a graph that survives can be declared and lists the namespaces of the graph.
proof fn lemma_graph_table(registered: Seq<NamespaceView>, meta: Seq<PropertyView>)
    requires
        all_survive(meta),
    ensures
        is_good_table(writer::table_of(registered, meta)),
        lists_all(table_uris(writer::table_of(registered, meta)), meta),
{
    let none = Seq::<Seq<char>>::empty();
    let uris = writer::with_uris_of(none, meta);
    lemma_uris_of(none, meta);
    lemma_all_listed(none, meta);
    lemma_table(registered, Seq::empty(), uris);
    assert(table_uris(Seq::empty()) + uris =~= uris);
}

/// The scope of a description serves the table that the description declares.
proof fn lemma_serves(scope: Scope, table: Seq<NamespaceView>)
    requires
        is_good_table(table),
        xml::binding(scope, "rdf"@) == Some(RDF_NAMESPACE@),
        xml::binding(scope, "xml"@) == Some(XML_NAMESPACE@),
    ensures
        serves(scope + table_bindings(table), table),
{
    let bindings = table_bindings(table);
    let inner = scope + bindings;
    lemma_binding_add(scope, bindings, "rdf"@);
    lemma_table_bindings(table, "rdf"@);
    lemma_binding_add(scope, bindings, "xml"@);
    lemma_table_bindings(table, "xml"@);
    reveal_strlit("xml");
    assert(is_reserved("xml"@));
    assert forall|i: int| 0 <= i < table.len() implies xml::binding(
        inner,
        (#[trigger] table[i]).prefix,
    ) == Some(table[i].uri) by {
        lemma_binding_add(scope, bindings, table[i].prefix);
        lemma_table_bindings(table, table[i].prefix);
    }
}

/// The description that holds a graph.
spec fn description(table: Seq<NamespaceView>, meta: Seq<PropertyView>) -> Written {
    writer::holder(
        "rdf:Description"@,
        seq![("rdf:about"@, Seq::<char>::empty())] + writer::declaration_attrs(table),
        writer::written_all(table, meta),
    )
}

/// The description that holds a graph comes back.
proof fn lemma_description(scope: Scope, table: Seq<NamespaceView>, meta: Seq<PropertyView>)
    requires
        is_good_table(table),
        table.len() <= 256,
        lists_all(table_uris(table), meta),
        all_survive(meta),
        xml::binding(scope, "rdf"@) == Some(RDF_NAMESPACE@),
        xml::binding(scope, "xml"@) == Some(XML_NAMESPACE@),
    ensures
        relexing::is_plain(scope, description(table, meta)),
        ({
            let e = relexing::found(scope, description(table, meta));
            &&& reader::has_name(e, RDF_NAMESPACE@, "Description"@)
            &&& e.attrs.len() == 1
            &&& e.attrs[0].ns == Some(RDF_NAMESPACE@)
            &&& e.children.len() == meta.len()
            &&& reader::properties_of(e.children) == Ok::<Seq<PropertyView>, ErrorView>(meta)
        }),
{
    let w = description(table, meta);
    let inner = scope + table_bindings(table);
    lemma_serves(scope, table);
    lemma_rdf_names(inner, table);
    lemma_description_attrs(inner, table);
    assert(relexing::inner_scope(scope, w) == inner);
    lemma_properties(inner, table, meta);
    let bindings = table_bindings(table);
    reveal_strlit("xml");
    reveal_strlit("xmlns");
    assert(is_reserved("xml"@) && is_reserved("xmlns"@));
    assert forall|i: int| 0 <= i < bindings.len() implies {
        &&& (#[trigger] bindings[i]).0 != "xml"@
        &&& bindings[i].0 != "xmlns"@
        &&& bindings[i].1 != XML_NAMESPACE@
        &&& bindings[i].1 != XMLNS_NAMESPACE@
    } by {
        assert(is_usable(table[i].prefix));
    }
}

/// The written form of a graph comes back: its element, and in it the description.
proof fn lemma_rdf(scope: Scope, table: Seq<NamespaceView>, meta: Seq<PropertyView>)
    requires
        is_good_table(table),
        table.len() <= 256,
        lists_all(table_uris(table), meta),
        all_survive(meta),
        xml::binding(scope, "xml"@) == Some(XML_NAMESPACE@),
    ensures
        ({
            let w = writer::holder(
                "rdf:RDF"@,
                seq![("xmlns:rdf"@, RDF_NAMESPACE@)],
                seq![description(table, meta)],
            );
            &&& relexing::is_plain(scope, w)
            &&& is_rdf_back(relexing::found(scope, w), meta)
        }),
{
    let d = description(table, meta);
    let attrs = seq![("xmlns:rdf"@, RDF_NAMESPACE@)];
    let w = writer::holder("rdf:RDF"@, attrs, seq![d]);
    let own = seq![("rdf"@, RDF_NAMESPACE@)];
    let inner = scope + own;
    lemma_own_prefixes();
    lemma_own_namespaces();
    lemma_own_uris();
    lemma_own_names();
    reveal_strlit("xmlns:");
    reveal_strlit("rdf");
    reveal_strlit("xmlns:rdf");
    reveal_strlit("xml");
    reveal_strlit("xmlns");
    reveal_strlit(":");
    reveal_strlit("RDF");
    reveal_strlit("rdf:RDF");
    assert("xmlns:rdf"@ =~= "xmlns:"@ + "rdf"@);
    assert("rdf:RDF"@ =~= "rdf"@ + ":"@ + "RDF"@);
    assert("rdf"@[0] == 'r' && "xml"@[0] == 'x' && "xmlns"@[0] == 'x');
    lemma_one_declaration(inner, "rdf"@, RDF_NAMESPACE@, "xmlns:rdf"@);
    assert(relexing::inner_scope(scope, w) == inner);
    lemma_binding_add(scope, own, "rdf"@);
    lemma_binding_add(scope, own, "xml"@);
    reveal_with_fuel(xml::binding, 2);
    assert(own.drop_last() =~= Seq::<(Seq<char>, Seq<char>)>::empty());
    lemma_prefixed(inner, "rdf"@, RDF_NAMESPACE@, "RDF"@);
    lemma_description(inner, table, meta);
    lemma_single(inner, d);
}

/// Whether an element is an `rdf:RDF` with one description that holds a graph.
spec fn is_rdf_back(e: Shape, meta: Seq<PropertyView>) -> bool {
    &&& reader::has_name(e, RDF_NAMESPACE@, "RDF"@)
    &&& e.children.len() == 1
    &&& reader::has_name(e.children[0], RDF_NAMESPACE@, "Description"@)
    &&& e.children[0].attrs.len() == 1
    &&& e.children[0].attrs[0].ns == Some(RDF_NAMESPACE@)
    &&& e.children[0].children.len() == meta.len()
    &&& reader::properties_of(e.children[0].children) == Ok::<Seq<PropertyView>, ErrorView>(meta)
}

/// Whether an element holds a graph, in a wrapper or by itself.
spec fn is_body_back(e: Shape, meta: Seq<PropertyView>, wrap: bool) -> bool {
    if wrap {
        &&& reader::has_name(e, XMPMETA_NAMESPACE@, "xmpmeta"@)
        &&& e.children.len() == 1
        &&& is_rdf_back(e.children[0], meta)
    } else {
        is_rdf_back(e, meta)
    }
}

/// The written form of a graph comes back.
proof fn lemma_body(registered: Seq<NamespaceView>, meta: Seq<PropertyView>, wrap: bool)
    requires
        all_survive(meta),
        writer::table_of(registered, meta).len() <= 256,
    ensures
        relexing::is_plain(
            xml::reserved_scope(),
            writer::body_element(registered, meta, wrap),
        ),
        is_body_back(
            relexing::found(
                xml::reserved_scope(),
                writer::body_element(registered, meta, wrap),
            ),
            meta,
            wrap,
        ),
{
    let table = writer::table_of(registered, meta);
    let reserved = xml::reserved_scope();
    lemma_graph_table(registered, meta);
    reveal_strlit("xml");
    reveal_strlit("xmlns");
    assert("xml"@.len() == 3 && "xmlns"@.len() == 5);
    reveal_with_fuel(xml::binding, 3);
    assert(reserved.drop_last() =~= seq![("xml"@, XML_NAMESPACE@)]);
    if wrap {
        let own = seq![("x"@, XMPMETA_NAMESPACE@)];
        let inner = reserved + own;
        let rdf = writer::holder(
            "rdf:RDF"@,
            seq![("xmlns:rdf"@, RDF_NAMESPACE@)],
            seq![description(table, meta)],
        );
        let w = writer::body_element(registered, meta, wrap);
        lemma_own_uris();
        reveal_strlit("x");
        reveal_strlit("xmlns:");
        reveal_strlit("xmlns:x");
        reveal_strlit(":");
        reveal_strlit("xmpmeta");
        reveal_strlit("x:xmpmeta");
        assert("xmlns:x"@ =~= "xmlns:"@ + "x"@);
        assert("x:xmpmeta"@ =~= "x"@ + ":"@ + "xmpmeta"@);
        assert("x"@.len() == 1);
        assert(has_prefix_chars("x"@));
        assert(is_plain_name("xmpmeta"@));
        lemma_one_declaration(inner, "x"@, XMPMETA_NAMESPACE@, "xmlns:x"@);
        assert(relexing::inner_scope(reserved, w) == inner);
        lemma_binding_add(reserved, own, "x"@);
        lemma_binding_add(reserved, own, "xml"@);
        assert(own.drop_last() =~= Seq::<(Seq<char>, Seq<char>)>::empty());
        lemma_prefixed(inner, "x"@, XMPMETA_NAMESPACE@, "xmpmeta"@);
        lemma_rdf(inner, table, meta);
        lemma_single(inner, rdf);
        assert(w.children == seq![rdf]);
    } else {
        lemma_rdf(reserved, table, meta);
    }
}

/// Where properties come back, each comes back from its element.
proof fn lemma_each_property(s: Seq<Shape>, meta: Seq<PropertyView>, i: int)
    requires
        reader::properties_of(s) == Ok::<Seq<PropertyView>, ErrorView>(meta),
        s.len() == meta.len(),
        0 <= i < s.len(),
    ensures
        reader::property_of(s[i]) == Ok::<PropertyView, ErrorView>(meta[i]),
    decreases s.len(),
{
    let rest = reader::properties_of(s.drop_first())->Ok_0;
    let first = reader::property_of(s[0])->Ok_0;
    assert(meta == seq![first] + rest);
    if i > 0 {
        assert(s.drop_first()[i - 1] == s[i]);
        assert(rest[i - 1] == meta[i]);
        lemma_each_property(s.drop_first(), rest, i - 1);
    }
}

/// Whether what has been read of a document are the first properties of a graph.
spec fn has_read(so_far: Reading, meta: Seq<PropertyView>, i: int) -> bool {
    &&& so_far.meta == meta.take(i)
    &&& so_far.seen.len() == i
    &&& forall|k: int|
        0 <= k < i ==> (#[trigger] so_far.seen[k]).namespace == meta[k].namespace
            && so_far.seen[k].name == meta[k].name
}

/// A name that was not declared is not found.
proof fn lemma_not_seen(seen: Seq<SeenView>, namespace: Seq<char>, name: Seq<char>, from: int)
    requires
        forall|k: int|
            0 <= k < seen.len() ==> !((#[trigger] seen[k]).namespace == namespace && seen[k].name
                == name),
    ensures
        document::seen_from(seen, namespace, name, from) is None,
    decreases seen.len() - from,
{
    if 0 <= from < seen.len() {
        lemma_not_seen(seen, namespace, name, from + 1);
    }
}

/// The child elements of a description are read into the graph that they came from.
proof fn lemma_children(so_far: Reading, e: ElementView, meta: Seq<PropertyView>, i: int)
    requires
        model::unique_names(meta),
        0 <= i <= meta.len(),
        e.children.len() == meta.len(),
        reader::properties_of(reader::shapes(e.children)) == Ok::<Seq<PropertyView>, ErrorView>(
            meta,
        ),
        has_read(so_far, meta, i),
    ensures
        document::after_children(so_far, e, i) matches Ok(read) && read.meta == meta,
    decreases meta.len() - i,
{
    if i == meta.len() {
        assert(meta.take(i) =~= meta);
    } else {
        let child = e.children[i];
        let p = meta[i];
        reader::lemma_shapes(e.children);
        lemma_each_property(reader::shapes(e.children), meta, i);
        assert(reader::shapes(e.children)[i] == reader::shape(child));
        assert forall|k: int| 0 <= k < so_far.seen.len() implies !((
        #[trigger] so_far.seen[k]).namespace == p.namespace && so_far.seen[k].name == p.name) by {
            assert(!model::is_named(meta[i], meta[k].namespace, meta[k].name));
        }
        lemma_not_seen(so_far.seen, p.namespace, p.name, 0);
        model::lemma_position_from(so_far.meta, p.namespace, p.name, 0);
        assert(model::position(so_far.meta, p.namespace, p.name) is None) by {
            if let Some(k) = model::position(so_far.meta, p.namespace, p.name) {
                assert(so_far.meta[k] == meta[k]);
                assert(!model::is_named(meta[i], meta[k].namespace, meta[k].name));
            }
        }
        assert(so_far.meta.push(p) =~= meta.take(i + 1));
        let location = LocationView {
            namespace: p.namespace,
            name: p.name,
            prefix: child.prefix,
            form: XmpPropertyForm::Element,
            span: child.span,
        };
        let next = document::noted(so_far, p, location, child.span)->Ok_0;
        lemma_children(next, e, meta, i + 1);
    }
}

/// An `rdf:RDF` element with one description that holds a graph is read into that graph.
proof fn lemma_read_rdf(rdf: ElementView, meta: Seq<PropertyView>)
    requires
        is_rdf_back(reader::shape(rdf), meta),
        model::unique_names(meta),
    ensures
        document::after_descriptions(document::nothing_read(), rdf, 0) matches Ok(read)
            && read.meta == meta,
{
    reader::lemma_shapes(rdf.children);
    let e = rdf.children[0];
    assert(reader::shapes(rdf.children)[0] == reader::shape(e));
    reader::lemma_shapes(e.children);
    assert(reader::shape_attrs(e.attrs).len() == e.attrs.len());
    assert(reader::shape_attrs(e.attrs)[0] == document::shape_attr(e.attrs[0]));
    let nothing = document::nothing_read();
    let started = Reading {
        descriptions: nothing.descriptions.push(document::description_of(e)),
        ..nothing
    };
    reveal_with_fuel(document::after_attributes, 2);
    assert(document::after_attributes(started, e, 0) == Ok::<Reading, ErrorView>(started));
    assert(meta.take(0) =~= Seq::<PropertyView>::empty());
    lemma_children(started, e, meta, 0);
    reveal_with_fuel(document::after_descriptions, 2);
}

/// An element that holds a graph is read into that graph.
proof fn lemma_read_body(root: ElementView, meta: Seq<PropertyView>, wrap: bool)
    requires
        is_body_back(reader::shape(root), meta, wrap),
        model::unique_names(meta),
    ensures
        document::interpreted(root) matches Ok(d) && d.meta == meta && d.root_is_xmpmeta == wrap,
{
    lemma_own_uris();
    if wrap {
        reader::lemma_shapes(root.children);
        assert(reader::shapes(root.children)[0] == reader::shape(root.children[0]));
        assert(document::rdf_from(root.children, 0) == Some(0int));
        lemma_read_rdf(root.children[0], meta);
    } else {
        lemma_read_rdf(root, meta);
    }
}

// ---------------------------------------------------------------------------------------------
// The laws
// ---------------------------------------------------------------------------------------------

/// Whether a graph survives being written by a writer and read back: its names can stand in XML, no
/// property occurs twice, alternatives differ in language, and it does not exceed what the lexer
/// takes in one tag or in depth.
pub open spec fn round_trips(writer: WriterView, meta: Seq<PropertyView>) -> bool {
    &&& all_survive(meta)
    &&& model::unique_names(meta)
    &&& writer::table_of(writer.namespaces, meta).len() <= 256
    &&& relexing::depth(writer::body_element(writer.namespaces, meta, writer.wrap_xmpmeta))
        < MAX_DEPTH
}

/// The text that a writer makes of a graph is read into that graph, wherever the text stands.
pub proof fn law_written_text_reads_back(writer: WriterView, meta: Seq<PropertyView>, base: int)
    requires
        round_trips(writer, meta),
        xml::is_sound(writer::body_text(writer, meta)),
    ensures
        document::document_of(writer::body_text(writer, meta), base) matches Ok(d) && d.meta == meta
            && d.root_is_xmpmeta == writer.wrap_xmpmeta,
{
    let w = writer::body_element(writer.namespaces, meta, writer.wrap_xmpmeta);
    lemma_body(writer.namespaces, meta, writer.wrap_xmpmeta);
    relexing::lemma_read_back(w, base);
    lemma_body_is_unmarked(writer, meta);
    let root = tree::tree_of(writer::body_text(writer, meta), base)->Ok_0;
    lemma_read_body(root, meta, writer.wrap_xmpmeta);
}

/// The text of a graph can stand for the content of a packet.
pub proof fn lemma_body_is_content(writer: WriterView, meta: Seq<PropertyView>)
    requires
        round_trips(writer, meta),
    ensures
        resplicing::is_content(writer::body_text(writer, meta)),
{
    let w = writer::body_element(writer.namespaces, meta, writer.wrap_xmpmeta);
    lemma_body(writer.namespaces, meta, writer.wrap_xmpmeta);
    rescanning::lemma_rendered(xml::reserved_scope(), w);
    assert(xml::is_name_char(w.name[0]));
    assert(writer::body_text(writer, meta)[1] == w.name[0]);
}

/// The text of a graph does not begin with a byte-order mark.
pub proof fn lemma_body_is_unmarked(writer: WriterView, meta: Seq<PropertyView>)
    requires
        round_trips(writer, meta),
    ensures
        document::leading_marks(writer::body_text(writer, meta)) == 0,
        document::after_marks(writer::body_text(writer, meta)) == writer::body_text(writer, meta),
{
    lemma_body_is_content(writer, meta);
    document::lemma_marks(writer::body_text(writer, meta));
}

/// A scan of a packet that was written finds the text of the graph, and the writability and the
/// padding that the writer was asked for.
pub proof fn law_written_packets_scan(writer: WriterView, meta: Seq<PropertyView>)
    requires
        round_trips(writer, meta),
        encode_utf8(writer::packet_text(writer, meta)).len() <= usize::MAX,
    ensures
        packet::scanned(encode_utf8(writer::packet_text(writer, meta))) matches Ok(d) && {
            &&& d.encoding == XmpEncoding::Utf8
            &&& !d.had_bom
            &&& d.packet == (packet::PacketView {
                body: writer::body_text(writer, meta),
                writable: writer.writable,
                padding: writer.padding as usize,
            })
            &&& decode_utf8(packet::span_bytes(d.bytes(), d.envelope.content))
                == writer::body_text(writer, meta)
        },
{
    lemma_body_is_content(writer, meta);
    rescanning::lemma_canonical_packet(
        writer::body_text(writer, meta),
        writer.padding,
        writer.writable,
    );
}

/// A packet that was written is read into the graph that it was written from.
pub proof fn law_written_packets_read_back(writer: WriterView, meta: Seq<PropertyView>)
    requires
        round_trips(writer, meta),
        encode_utf8(writer::packet_text(writer, meta)).len() <= usize::MAX,
        xml::is_sound(writer::body_text(writer, meta)),
    ensures
        document::graph_in(encode_utf8(writer::packet_text(writer, meta))) == Ok::<
            Seq<PropertyView>,
            ErrorView,
        >(meta),
{
    law_written_packets_scan(writer, meta);
    let d = packet::scanned(encode_utf8(writer::packet_text(writer, meta)))->Ok_0;
    law_written_text_reads_back(writer, meta, d.envelope.content.start as int);
}

/// A scan of a body that was written finds it as it is.
pub proof fn law_written_bodies_scan(writer: WriterView, meta: Seq<PropertyView>)
    requires
        round_trips(writer, meta),
        encode_utf8(writer::body_text(writer, meta)).len() <= usize::MAX,
    ensures
        packet::scanned(encode_utf8(writer::body_text(writer, meta))) matches Ok(d) && {
            &&& d.encoding == XmpEncoding::Utf8
            &&& !d.had_bom
            &&& d.packet == (packet::PacketView {
                body: writer::body_text(writer, meta),
                writable: false,
                padding: 0,
            })
            &&& decode_utf8(packet::span_bytes(d.bytes(), d.envelope.content))
                == writer::body_text(writer, meta)
        },
{
    lemma_body_is_content(writer, meta);
    rescanning::lemma_bare_body(writer::body_text(writer, meta));
}

/// A body that was written is read into the graph that it was written from.
pub proof fn law_written_bodies_read_back(writer: WriterView, meta: Seq<PropertyView>)
    requires
        round_trips(writer, meta),
        encode_utf8(writer::body_text(writer, meta)).len() <= usize::MAX,
        xml::is_sound(writer::body_text(writer, meta)),
    ensures
        document::graph_in(encode_utf8(writer::body_text(writer, meta))) == Ok::<
            Seq<PropertyView>,
            ErrorView,
        >(meta),
{
    law_written_bodies_scan(writer, meta);
    let d = packet::scanned(encode_utf8(writer::body_text(writer, meta)))->Ok_0;
    law_written_text_reads_back(writer, meta, d.envelope.content.start as int);
}

/// Writing what was read from a written packet gives the packet again.
pub proof fn law_rewriting_changes_nothing(writer: WriterView, meta: Seq<PropertyView>)
    requires
        round_trips(writer, meta),
        encode_utf8(writer::packet_text(writer, meta)).len() <= usize::MAX,
        xml::is_sound(writer::body_text(writer, meta)),
    ensures
        ({
            let bytes = encode_utf8(writer::packet_text(writer, meta));
            &&& document::graph_in(bytes) matches Ok(read)
            &&& encode_utf8(writer::packet_text(writer, read)) == bytes
        }),
{
    law_written_packets_read_back(writer, meta);
}

/// Bytes that a writer made are read into the graph that they were made from.
pub proof fn lemma_bytes_read_back(bytes: Seq<u8>)
    requires
        bytes.len() <= usize::MAX,
        packet::scanned(bytes) matches Ok(d) ==> document::is_sound(
            decode_utf8(packet::span_bytes(d.bytes(), d.envelope.content)),
        ),
    ensures
        forall|writer: WriterView, meta: Seq<PropertyView>|
            round_trips(writer, meta) && bytes == encode_utf8(
                #[trigger] writer::packet_text(writer, meta),
            ) ==> document::graph_in(bytes) == Ok::<Seq<PropertyView>, ErrorView>(meta),
        forall|writer: WriterView, meta: Seq<PropertyView>|
            round_trips(writer, meta) && bytes == encode_utf8(
                #[trigger] writer::body_text(writer, meta),
            ) ==> document::graph_in(bytes) == Ok::<Seq<PropertyView>, ErrorView>(meta),
{
    assert forall|writer: WriterView, meta: Seq<PropertyView>|
        round_trips(writer, meta) && bytes == encode_utf8(
            #[trigger] writer::packet_text(writer, meta),
        ) implies document::graph_in(bytes) == Ok::<Seq<PropertyView>, ErrorView>(meta) by {
        lemma_body_is_unmarked(writer, meta);
        law_written_packets_scan(writer, meta);
        law_written_packets_read_back(writer, meta);
    }
    assert forall|writer: WriterView, meta: Seq<PropertyView>|
        round_trips(writer, meta) && bytes == encode_utf8(
            #[trigger] writer::body_text(writer, meta),
        ) implies document::graph_in(bytes) == Ok::<Seq<PropertyView>, ErrorView>(meta) by {
        lemma_body_is_unmarked(writer, meta);
        law_written_bodies_scan(writer, meta);
        law_written_bodies_read_back(writer, meta);
    }
}

} // verus!
