//! That what means something in markup is written as references, and elements between their tags.

use vstd::prelude::*;
use vstd::string::*;

use crate::text;
use crate::writer;
use crate::writer::Written;
use crate::xml;

verus! {

/// The reference to a character that cannot stand in character data as it is.
pub open spec fn data_reference(c: char) -> Option<Seq<char>> {
    match c {
        '&' => Some("&amp;"@),
        '<' => Some("&lt;"@),
        '>' => Some("&gt;"@),
        '\r' => Some("&#xD;"@),
        _ => None,
    }
}

/// The reference to a character that cannot stand in a quoted value as it is.
pub open spec fn value_reference(c: char) -> Option<Seq<char>> {
    match c {
        '"' => Some("&quot;"@),
        '\t' => Some("&#x9;"@),
        '\n' => Some("&#xA;"@),
        _ => data_reference(c),
    }
}

proof fn lemma_references()
    ensures
        "&amp;"@ == xml::reference("amp"@),
        "&lt;"@ == xml::reference("lt"@),
        "&gt;"@ == xml::reference("gt"@),
        "&quot;"@ == xml::reference("quot"@),
        "&#x9;"@ == xml::reference("#x9"@),
        "&#xA;"@ == xml::reference("#xA"@),
        "&#xD;"@ == xml::reference("#xD"@),
{
    reveal_strlit("&amp;");
    reveal_strlit("&lt;");
    reveal_strlit("&gt;");
    reveal_strlit("&quot;");
    reveal_strlit("&#x9;");
    reveal_strlit("&#xA;");
    reveal_strlit("&#xD;");
    reveal_strlit("amp");
    reveal_strlit("lt");
    reveal_strlit("gt");
    reveal_strlit("quot");
    reveal_strlit("#x9");
    reveal_strlit("#xA");
    reveal_strlit("#xD");
    assert("&amp;"@ =~= xml::reference("amp"@));
    assert("&lt;"@ =~= xml::reference("lt"@));
    assert("&gt;"@ =~= xml::reference("gt"@));
    assert("&quot;"@ =~= xml::reference("quot"@));
    assert("&#x9;"@ =~= xml::reference("#x9"@));
    assert("&#xA;"@ =~= xml::reference("#xA"@));
    assert("&#xD;"@ =~= xml::reference("#xD"@));
}

/// Character data is written character by character: what means something in it as a reference,
/// everything else as it is.
pub proof fn law_data_is_escaped_character_by_character(a: Seq<char>, c: char, b: Seq<char>)
    ensures
        xml::escaped_text(a + seq![c] + b) == xml::escaped_text(a) + (match data_reference(c) {
            Some(reference) => reference,
            None => seq![c],
        }) + xml::escaped_text(b),
        xml::escaped_text(Seq::empty()) == Seq::<char>::empty(),
    decreases a.len(),
{
    let whole = a + seq![c] + b;
    let one = match data_reference(c) {
        Some(reference) => reference,
        None => seq![c],
    };
    lemma_references();
    if a.len() == 0 {
        assert(whole[0] == c);
        assert(whole.drop_first() =~= b);
        assert(xml::escaped_text(a) =~= Seq::empty());
        assert(xml::escaped_text(a) + one + xml::escaped_text(b) =~= one + xml::escaped_text(b));
    } else {
        let rest = a.drop_first();
        law_data_is_escaped_character_by_character(rest, c, b);
        assert(whole[0] == a[0]);
        assert(whole.drop_first() =~= rest + seq![c] + b);
        let head = match xml::text_entity(a[0]) {
            Some(entity) => xml::reference(entity),
            None => seq![a[0]],
        };
        assert(head + (xml::escaped_text(rest) + one + xml::escaped_text(b)) =~= head
            + xml::escaped_text(rest) + one + xml::escaped_text(b));
    }
}

/// A value is written character by character: what means something in it, or would be normalized,
/// as a reference, everything else as it is.
pub proof fn law_values_are_escaped_character_by_character(a: Seq<char>, c: char, b: Seq<char>)
    ensures
        xml::escaped_attribute(a + seq![c] + b) == xml::escaped_attribute(a) + (
        match value_reference(c) {
            Some(reference) => reference,
            None => seq![c],
        }) + xml::escaped_attribute(b),
        xml::escaped_attribute(Seq::empty()) == Seq::<char>::empty(),
    decreases b.len(),
{
    let whole = a + seq![c] + b;
    let one = match value_reference(c) {
        Some(reference) => reference,
        None => seq![c],
    };
    lemma_references();
    if b.len() == 0 {
        assert(whole.last() == c);
        assert(whole.drop_last() =~= a);
        assert(xml::escaped_attribute(b) =~= Seq::empty());
        assert(xml::escaped_attribute(a) + one + xml::escaped_attribute(b)
            =~= xml::escaped_attribute(a) + one);
    } else {
        let rest = b.drop_last();
        law_values_are_escaped_character_by_character(a, c, rest);
        assert(whole.last() == b.last());
        assert(whole.drop_last() =~= a + seq![c] + rest);
        let tail = match xml::attribute_entity(b.last()) {
            Some(entity) => xml::reference(entity),
            None => seq![b.last()],
        };
        assert(xml::escaped_attribute(a) + one + xml::escaped_attribute(rest) + tail
            =~= xml::escaped_attribute(a) + one + (xml::escaped_attribute(rest) + tail));
    }
}

/// An element is written with its attributes in its start tag, each after a space with its escaped
/// value in double quotes, then its character data, its child elements and its end tag.
pub proof fn law_elements_are_written_between_their_tags(w: Written)
    ensures
        writer::rendered(w) == "<"@ + w.name + xml::attributes_text(writer::escaped_attrs(w.attrs))
            + ">"@ + xml::escaped_text(w.text) + writer::rendered_all(w.children) + "</"@ + w.name
            + ">"@,
{
    reveal_strlit("<");
    reveal_strlit(">");
    reveal_strlit("</");
    assert("<"@ =~= seq!['<']);
    assert(">"@ =~= seq!['>']);
    assert("</"@ =~= seq!['<', '/']);
    let inner = writer::start_tag(w) + xml::escaped_text(w.text) + writer::rendered_all(w.children);
    assert(inner + (seq!['<', '/'] + w.name + seq!['>']) =~= inner + seq!['<', '/'] + w.name
        + seq!['>']);
}

/// Attributes are written one by one, and elements one after the other.
pub proof fn law_markup_is_written_in_order(
    attrs: Seq<(Seq<char>, Seq<char>)>,
    key: Seq<char>,
    value: Seq<char>,
    s: Seq<Written>,
    w: Written,
)
    ensures
        xml::attributes_text(writer::escaped_attrs(attrs.push((key, value))))
            == xml::attributes_text(writer::escaped_attrs(attrs)) + " "@ + key + "=\""@
            + xml::escaped_attribute(value) + "\""@,
        writer::rendered_all(s.push(w)) == writer::rendered_all(s) + writer::rendered(w),
    decreases s.len(),
{
    let escaped = writer::escaped_attrs(attrs);
    let more = writer::escaped_attrs(attrs.push((key, value)));
    let written = xml::escaped_attribute(value);
    reveal_strlit(" ");
    reveal_strlit("=\"");
    reveal_strlit("\"");
    assert(" "@ =~= seq![' ']);
    assert("=\""@ =~= seq!['=', '"']);
    assert("\""@ =~= seq!['"']);
    assert(more.last() == (key, written));
    assert(more.drop_last() =~= escaped);
    let before = xml::attributes_text(escaped);
    assert(before + (seq![' '] + key + seq!['=', '"'] + written + seq!['"']) =~= before + seq![' ']
        + key + seq!['=', '"'] + written + seq!['"']);
    let all = s.push(w);
    if s.len() == 0 {
        assert(all.drop_first() =~= Seq::empty());
        assert(writer::rendered_all(all.drop_first()) =~= Seq::empty());
        assert(all[0] == w);
        assert(writer::rendered(w) + Seq::<char>::empty() =~= Seq::<char>::empty()
            + writer::rendered(w));
    } else {
        law_markup_is_written_in_order(attrs, key, value, s.drop_first(), w);
        assert(all.drop_first() =~= s.drop_first().push(w));
        assert(all[0] == s[0]);
        assert(writer::rendered(s[0]) + (writer::rendered_all(s.drop_first()) + writer::rendered(w))
            =~= writer::rendered(s[0]) + writer::rendered_all(s.drop_first())
            + writer::rendered(w));
    }
}

/// Whether a character is a letter, a digit, one of `-`, `_` and `.`, or beyond ASCII.
pub open spec fn is_word_char(c: char) -> bool {
    let n = c as int;
    ||| 65 <= n <= 90
    ||| 97 <= n <= 122
    ||| 48 <= n <= 57
    ||| n == 45 || n == 46 || n == 95
    ||| n >= 128
}

/// A text serves as a prefix just where it is made of word characters, does not begin with a digit,
/// `-` or `.`, and does not begin with the letters `xml` in any case.
pub proof fn law_prefixes_are_words(prefix: Seq<char>)
    ensures
        writer::is_valid_prefix(prefix) <==> {
            &&& prefix.len() > 0
            &&& forall|i: int| 0 <= i < prefix.len() ==> is_word_char(#[trigger] prefix[i])
            &&& !(48 <= prefix[0] as int <= 57) && prefix[0] != '-' && prefix[0] != '.'
            &&& !(prefix.len() >= 3 && (prefix[0] == 'x' || prefix[0] == 'X') && (prefix[1] == 'm'
                || prefix[1] == 'M') && (prefix[2] == 'l' || prefix[2] == 'L'))
        },
{
    let lower = text::lower_text(prefix);
    let xml = "xml"@;
    reveal_strlit("xml");
    assert(xml.len() == 3 && xml[0] == 'x' && xml[1] == 'm' && xml[2] == 'l');
    assert forall|i: int| 0 <= i < prefix.len() implies is_word_char(prefix[i])
        == writer::is_prefix_char(#[trigger] prefix[i]) by {}
    if prefix.len() >= 3 {
        assert(lower[0] == text::lower_char(prefix[0]));
        assert(lower[1] == text::lower_char(prefix[1]));
        assert(lower[2] == text::lower_char(prefix[2]));
        let head = lower.subrange(0, 3);
        assert(head[0] == lower[0] && head[1] == lower[1] && head[2] == lower[2]);
        if lower[0] == 'x' && lower[1] == 'm' && lower[2] == 'l' {
            assert(head =~= xml);
        }
    }
}

} // verus!
