//! That namespaces get the prefixes that were registered for them, else their conventional ones.

use vstd::prelude::*;

use crate::model::PropertyView;
use crate::namespace::{NamespaceView, WellKnownNs};
use crate::writer;

verus! {

// ---------------------------------------------------------------------------------------------
// Prefixes of one namespace
// ---------------------------------------------------------------------------------------------

/// Whether a registered entry can give a namespace its prefix.
pub open spec fn is_offered(n: NamespaceView, table: Seq<NamespaceView>, uri: Seq<char>) -> bool {
    &&& n.uri == uri
    &&& writer::is_valid_prefix(n.prefix)
    &&& !writer::is_taken(table, n.prefix)
}

/// Whether a prefix is another one with as few underscores added as make it free.
pub open spec fn is_freed(r: Seq<char>, prefix: Seq<char>, table: Seq<NamespaceView>) -> bool {
    &&& prefix.is_prefix_of(r)
    &&& forall|i: int| prefix.len() <= i < r.len() ==> #[trigger] r[i] == '_'
    &&& !writer::is_taken(table, r)
    &&& forall|n: int| prefix.len() <= n < r.len() ==> writer::is_taken(table, #[trigger] r.take(n))
}

/// The number that decimal digits write.
pub open spec fn number(digits: Seq<char>) -> int
    decreases digits.len(),
{
    if digits.len() == 0 {
        0
    } else {
        10 * number(digits.drop_last()) + (digits.last() as int - '0' as int)
    }
}

/// A number is written with decimal digits, the first of which is no zero unless it is alone.
pub proof fn law_numbers_are_written_in_decimal(n: nat)
    ensures
        number(writer::decimal(n)) == n,
        forall|i: int|
            0 <= i < writer::decimal(n).len() ==> '0' <= #[trigger] writer::decimal(n)[i] <= '9',
        writer::decimal(n).len() > 0,
        n > 0 ==> writer::decimal(n)[0] != '0',
    decreases n,
{
    let d = writer::decimal(n);
    if n >= 10 {
        law_numbers_are_written_in_decimal(n / 10);
        assert(d.drop_last() =~= writer::decimal(n / 10));
        assert forall|i: int| 0 <= i < d.len() implies '0' <= #[trigger] d[i] <= '9' by {
            if i < d.len() - 1 {
                assert(d[i] == writer::decimal(n / 10)[i]);
            }
        }
        assert(d[0] == writer::decimal(n / 10)[0]);
    } else {
        assert(d.drop_last() =~= Seq::<char>::empty());
        assert(number(d.drop_last()) == 0);
    }
}

/// A prefix that is taken gets as few underscores as make it free, and one that is free gets none.
pub proof fn law_taken_prefixes_get_underscores(table: Seq<NamespaceView>, prefix: Seq<char>)
    ensures
        is_freed(writer::free_prefix(table, prefix), prefix, table),
        !writer::is_taken(table, prefix) ==> writer::free_prefix(table, prefix) == prefix,
    decreases writer::longest_taken(table) + 1 - prefix.len(),
{
    let r = writer::free_prefix(table, prefix);
    if writer::is_taken(table, prefix) {
        writer::lemma_longest_taken(table, prefix);
        let longer = prefix.push('_');
        law_taken_prefixes_get_underscores(table, longer);
        assert(r.subrange(0, longer.len() as int) == longer);
        assert(r.take(prefix.len() as int) =~= prefix) by {
            assert forall|i: int| 0 <= i < prefix.len() implies r[i] == #[trigger] prefix[i] by {
                assert(r.subrange(0, longer.len() as int)[i] == longer[i]);
            }
        }
        assert(r.subrange(0, prefix.len() as int) =~= prefix);
        assert(r[prefix.len() as int] == r.subrange(0, longer.len() as int)[prefix.len() as int]);
    } else {
        assert(r.subrange(0, prefix.len() as int) =~= prefix);
    }
}

proof fn lemma_offered(
    registered: Seq<NamespaceView>,
    table: Seq<NamespaceView>,
    uri: Seq<char>,
    from: int,
    i: int,
)
    requires
        0 <= from <= i < registered.len(),
        is_offered(registered[i], table, uri),
        forall|j: int| from <= j < i ==> !is_offered(#[trigger] registered[j], table, uri),
    ensures
        writer::registered_from(registered, table, uri, from) == Some(registered[i].prefix),
    decreases i - from,
{
    if from < i {
        assert(!is_offered(registered[from], table, uri));
        lemma_offered(registered, table, uri, from + 1, i);
    }
}

proof fn lemma_not_offered(
    registered: Seq<NamespaceView>,
    table: Seq<NamespaceView>,
    uri: Seq<char>,
    from: int,
)
    requires
        0 <= from <= registered.len(),
        forall|j: int|
            0 <= j < registered.len() ==> !is_offered(#[trigger] registered[j], table, uri),
    ensures
        writer::registered_from(registered, table, uri, from) is None,
    decreases registered.len() - from,
{
    if from < registered.len() {
        assert(!is_offered(registered[from], table, uri));
        lemma_not_offered(registered, table, uri, from + 1);
    }
}

/// The first prefix that is registered for a namespace, can serve and is free is the one that it
/// gets, whatever its conventional prefix is.
pub proof fn law_registered_prefixes_come_first(
    registered: Seq<NamespaceView>,
    table: Seq<NamespaceView>,
    uri: Seq<char>,
    i: int,
)
    requires
        0 <= i < registered.len(),
        is_offered(registered[i], table, uri),
        forall|j: int| 0 <= j < i ==> !is_offered(#[trigger] registered[j], table, uri),
    ensures
        writer::chosen_prefix(registered, table, uri) == registered[i].prefix,
{
    lemma_offered(registered, table, uri, 0, i);
}

/// The URIs of the well-known namespaces differ.
proof fn lemma_well_known_differ(a: WellKnownNs, b: WellKnownNs)
    requires
        a != b,
    ensures
        a.spec_uri()@ != b.spec_uri()@,
{
    reveal_strlit("http://purl.org/dc/elements/1.1/");
    reveal_strlit("http://ns.adobe.com/xap/1.0/");
    reveal_strlit("http://ns.adobe.com/xap/1.0/rights/");
    reveal_strlit("http://ns.adobe.com/xap/1.0/mm/");
    reveal_strlit("http://ns.adobe.com/pdf/1.3/");
    reveal_strlit("http://ns.adobe.com/photoshop/1.0/");
    reveal_strlit("http://ns.adobe.com/tiff/1.0/");
    reveal_strlit("http://ns.adobe.com/exif/1.0/");
    assert("http://purl.org/dc/elements/1.1/"@.len() == 32);
    assert("http://ns.adobe.com/xap/1.0/"@.len() == 28);
    assert("http://ns.adobe.com/xap/1.0/rights/"@.len() == 35);
    assert("http://ns.adobe.com/xap/1.0/mm/"@.len() == 31);
    assert("http://ns.adobe.com/pdf/1.3/"@.len() == 28);
    assert("http://ns.adobe.com/photoshop/1.0/"@.len() == 34);
    assert("http://ns.adobe.com/tiff/1.0/"@.len() == 29);
    assert("http://ns.adobe.com/exif/1.0/"@.len() == 29);
    assert("http://ns.adobe.com/xap/1.0/"@[20] == 'x');
    assert("http://ns.adobe.com/pdf/1.3/"@[20] == 'p');
    assert("http://ns.adobe.com/tiff/1.0/"@[20] == 't');
    assert("http://ns.adobe.com/exif/1.0/"@[20] == 'e');
}

/// A well-known namespace without a registered prefix that can be given to it gets its conventional
/// prefix, with underscores where that is taken.
pub proof fn law_well_known_namespaces_get_their_prefixes(
    registered: Seq<NamespaceView>,
    table: Seq<NamespaceView>,
    ns: WellKnownNs,
)
    requires
        forall|j: int|
            0 <= j < registered.len() ==> !is_offered(
                #[trigger] registered[j],
                table,
                ns.spec_uri()@,
            ),
    ensures
        is_freed(
            writer::chosen_prefix(registered, table, ns.spec_uri()@),
            ns.spec_prefix()@,
            table,
        ),
{
    lemma_not_offered(registered, table, ns.spec_uri()@, 0);
    law_taken_prefixes_get_underscores(table, ns.spec_prefix()@);
    assert forall|other: WellKnownNs| other != ns implies ns.spec_uri()@ != (
    #[trigger] other.spec_uri())@ by {
        lemma_well_known_differ(ns, other);
    }
    assert(writer::conventional_prefix(ns.spec_uri()@) == Some(ns.spec_prefix()@));
}

/// Any other namespace without a registered prefix that can be given to it gets the letters `ns` and
/// its number in the table, with underscores where that is taken.
pub proof fn law_other_namespaces_are_numbered(
    registered: Seq<NamespaceView>,
    table: Seq<NamespaceView>,
    uri: Seq<char>,
)
    requires
        forall|j: int|
            0 <= j < registered.len() ==> !is_offered(#[trigger] registered[j], table, uri),
        forall|ns: WellKnownNs| uri != (#[trigger] ns.spec_uri())@,
    ensures
        exists|digits: Seq<char>|
            {
                &&& number(digits) == table.len() + 1
                &&& is_freed(
                    writer::chosen_prefix(registered, table, uri),
                    #[trigger] ("ns"@ + digits),
                    table,
                )
            },
{
    let digits = writer::decimal((table.len() + 1) as nat);
    lemma_not_offered(registered, table, uri, 0);
    law_numbers_are_written_in_decimal((table.len() + 1) as nat);
    law_taken_prefixes_get_underscores(table, "ns"@ + digits);
    assert(writer::conventional_prefix(uri) is None);
}

// ---------------------------------------------------------------------------------------------
// The table of a graph
// ---------------------------------------------------------------------------------------------

proof fn lemma_extended(
    registered: Seq<NamespaceView>,
    table: Seq<NamespaceView>,
    uris: Seq<Seq<char>>,
    k: int,
)
    requires
        0 <= k < uris.len(),
    ensures
        ({
            let more = writer::extended_table(registered, table, uris);
            let at = table.len() + k;
            &&& more.len() == table.len() + uris.len()
            &&& more.take(table.len() as int) == table
            &&& more[at].uri == uris[k]
            &&& more[at].prefix == writer::chosen_prefix(registered, more.take(at), uris[k])
        }),
    decreases uris.len(),
{
    let entry = NamespaceView {
        uri: uris[0],
        prefix: writer::chosen_prefix(registered, table, uris[0]),
    };
    let next = table.push(entry);
    let rest = uris.drop_first();
    let more = writer::extended_table(registered, next, rest);
    if rest.len() > 0 {
        lemma_extended(
            registered,
            next,
            rest,
            if k > 0 {
                k - 1
            } else {
                0
            },
        );
    } else {
        assert(more.take(next.len() as int) =~= next);
    }
    assert(more.take(table.len() as int) =~= table) by {
        assert forall|i: int| 0 <= i < table.len() implies more[i] == #[trigger] table[i] by {
            assert(more.take(next.len() as int)[i] == next[i]);
        }
    }
    assert(more[table.len() as int] == more.take(next.len() as int)[table.len() as int]);
    assert(more[table.len() as int] == entry);
}

/// The table of a graph holds its namespaces in the order in which they are met, and each gets the
/// prefix that it is due behind those before it.
pub proof fn law_namespaces_get_their_prefixes_in_turn(
    registered: Seq<NamespaceView>,
    meta: Seq<PropertyView>,
    k: int,
)
    requires
        0 <= k < writer::with_uris_of(Seq::empty(), meta).len(),
    ensures
        ({
            let uris = writer::with_uris_of(Seq::empty(), meta);
            let table = writer::table_of(registered, meta);
            &&& table.len() == uris.len()
            &&& table[k].uri == uris[k]
            &&& table[k].prefix == writer::chosen_prefix(registered, table.take(k), uris[k])
        }),
{
    lemma_extended(registered, Seq::empty(), writer::with_uris_of(Seq::empty(), meta), k);
}

/// The namespaces of a list of properties are met property by property.
pub proof fn law_namespaces_are_met_in_order(
    uris: Seq<Seq<char>>,
    s: Seq<PropertyView>,
    t: Seq<PropertyView>,
)
    ensures
        writer::with_uris_of(uris, s + t) == writer::with_uris_of(
            writer::with_uris_of(uris, s),
            t,
        ),
    decreases s.len(),
{
    if s.len() == 0 {
        assert(s + t =~= t);
    } else {
        assert((s + t).drop_first() =~= s.drop_first() + t);
        assert((s + t)[0] == s[0]);
        law_namespaces_are_met_in_order(
            writer::with_property_uris(uris, s[0]),
            s.drop_first(),
            t,
        );
    }
}

} // verus!
