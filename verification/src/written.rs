//! What the XML text written for a revision holds, read off the text
//! itself: where the message, each parent reference and each property
//! stand, and that each reads back as what the revision holds.

use vstd::prelude::*;
use vstd::utf8::*;

use crate::escape::{
    escape_bytes, escape_invalid, escape_string, is_markup_char, lemma_escape_bytes_roundtrip,
    lemma_escape_string_roundtrip, lemma_escaped_bytes_are_plain, lemma_escaped_string_is_plain,
    unescape,
};
use crate::lines::byte_seqs;
use crate::revision::Revision;
use crate::xml_serializer::{
    escapes_found, message_element, parent_refs, parents_element, properties_element,
    property_element, property_elements, property_escapes_found, revision_start_tag,
    revision_xml, writable,
};

verus! {

/// The texts of `p`, one after another.
pub open spec fn chars_concat(p: Seq<Seq<char>>) -> Seq<char>
    decreases p.len(),
{
    if p.len() == 0 {
        seq![]
    } else {
        chars_concat(p.drop_last()) + p.last()
    }
}

/// Whether `text` holds `piece` from index `pos` on.
pub open spec fn holds_at(text: Seq<char>, pos: int, piece: Seq<char>) -> bool {
    &&& 0 <= pos
    &&& pos + piece.len() <= text.len()
    &&& text.subrange(pos, pos + piece.len()) == piece
}

/// Where the `i`-th text of `p` starts in `chars_concat(p)`.
pub open spec fn piece_offset(p: Seq<Seq<char>>, i: int) -> int {
    chars_concat(p.take(i)).len() as int
}

proof fn lemma_chars_concat_append(a: Seq<Seq<char>>, b: Seq<Seq<char>>)
    ensures
        chars_concat(a + b) == chars_concat(a) + chars_concat(b),
    decreases b.len(),
{
    if b.len() == 0 {
        assert(a + b =~= a);
        assert(chars_concat(a) + chars_concat(b) =~= chars_concat(a));
    } else {
        lemma_chars_concat_append(a, b.drop_last());
        assert((a + b).drop_last() =~= a + b.drop_last());
        assert((a + b).last() == b.last());
        assert(chars_concat(a) + chars_concat(b) =~= chars_concat(a) + chars_concat(b.drop_last())
            + b.last());
    }
}

/// Each text of `p` stands in `chars_concat(p)` at its offset, and the
/// offsets follow one another.
proof fn lemma_pieces_in_place(p: Seq<Seq<char>>)
    ensures
        forall|i: int| 0 <= i < p.len() ==> holds_at(chars_concat(p), piece_offset(p, i), #[trigger] p[i]),
        forall|i: int|
            0 <= i < p.len() ==> piece_offset(p, i) + p[i].len() == #[trigger] piece_offset(p, i + 1),
{
    assert forall|i: int| 0 <= i < p.len() implies holds_at(chars_concat(p), piece_offset(p, i), #[trigger] p[i])
        && piece_offset(p, i) + p[i].len() == piece_offset(p, i + 1) by {
        let h = p.take(i + 1);
        assert(h.drop_last() =~= p.take(i));
        assert(h.last() == p[i]);
        assert(chars_concat(h) == chars_concat(p.take(i)) + p[i]);
        assert(p =~= h + p.skip(i + 1));
        lemma_chars_concat_append(h, p.skip(i + 1));
        let c = chars_concat(p);
        let o = piece_offset(p, i);
        assert(c == chars_concat(p.take(i)) + p[i] + chars_concat(p.skip(i + 1)));
        assert(c.subrange(o, o + p[i].len()) =~= p[i]);
    }
}

/// A piece held by `s` is held by any text that `s` stands in.
proof fn lemma_holds_in(x: Seq<char>, s: Seq<char>, y: Seq<char>, pos: int, piece: Seq<char>)
    requires
        holds_at(s, pos, piece),
    ensures
        holds_at(x + s + y, x.len() + pos, piece),
{
    let t = x + s + y;
    assert(t.subrange(x.len() + pos, x.len() + pos + piece.len()) =~= s.subrange(pos, pos + piece.len()));
}

/// The written message reads back: the text holds `<message>`, then a
/// text free of `<` that reads as the message with the characters XML
/// cannot carry rewritten as `\x` escapes, then `</message>` and a line
/// break.
pub proof fn lemma_written_message(format: Seq<char>, rev: Revision)
    requires
        escapes_found(rev),
    ensures
        exists|a: Seq<char>, m: Seq<char>, b: Seq<char>|
            #![trigger unescape(m), a + "<message>"@ + m + "</message>\n"@ + b]
            revision_xml(format, rev) == a + "<message>"@ + m + "</message>\n"@ + b && unescape(m)
                == escape_invalid(rev.message@) && (forall|i: int| 0 <= i < m.len() ==> m[i] != '<'),
{
    let t = escape_invalid(rev.message@);
    let m = escape_string(t);
    lemma_escape_string_roundtrip(t);
    lemma_escaped_string_is_plain(t);
    assert forall|i: int| 0 <= i < m.len() implies m[i] != '<' by {
        assert(m[i] == '&' || !crate::escape::unicode_escape_class(m[i]));
    }
    let a = revision_start_tag(format, rev);
    let b = crate::xml_serializer::parents_element(rev) + properties_element(rev) + "</revision>\n"@;
    assert(revision_xml(format, rev) =~= a + "<message>"@ + m + "</message>\n"@ + b);
    assert(unescape(m) == escape_invalid(rev.message@));
}

/// The line that refers to a parent whose id is written as `v`.
pub open spec fn ref_line(v: Seq<char>) -> Seq<char> {
    "<revision_ref revision_id=\""@ + v + "\" />\n"@
}

proof fn lemma_parent_refs_pieces(ps: Seq<Seq<u8>>, k: int)
    requires
        0 <= k <= ps.len(),
    ensures
        parent_refs(ps, k) == chars_concat(
            Seq::new(ps.len(), |i: int| ref_line(escape_bytes(ps[i]))).take(k),
        ),
    decreases k,
{
    let p = Seq::new(ps.len(), |i: int| ref_line(escape_bytes(ps[i])));
    if k == 0 {
        assert(p.take(0) =~= Seq::<Seq<char>>::empty());
    } else {
        lemma_parent_refs_pieces(ps, k - 1);
        assert(p.take(k).drop_last() =~= p.take(k - 1));
        assert(p.take(k).last() == p[k - 1]);
        assert(parent_refs(ps, k) =~= parent_refs(ps, k - 1) + ref_line(escape_bytes(ps[k - 1])));
    }
}

proof fn lemma_parent_value(rev: Revision, i: int)
    requires
        writable(rev),
        escapes_found(rev),
        0 <= i < rev.parent_ids@.len(),
    ensures
        unescape(escape_bytes(rev.parent_ids@[i]@)) == decode_utf8(rev.parent_ids@[i]@),
        forall|j: int|
            0 <= j < escape_bytes(rev.parent_ids@[i]@).len() ==> escape_bytes(rev.parent_ids@[i]@)[j]
                != '"',
{
    let b = rev.parent_ids@[i]@;
    assert(valid_utf8(b));
    assert(crate::escape::utf8_pattern_found(b));
    lemma_escape_bytes_roundtrip(b);
    lemma_escaped_bytes_are_plain(b);
    assert forall|j: int| 0 <= j < escape_bytes(b).len() implies escape_bytes(b)[j] != '"' by {
        assert(crate::escape::reference_safe(escape_bytes(b)[j]));
    }
}

/// The written parents read back: for each parent id, in order, the text
/// holds a `revision_ref` line whose `revision_id` value is free of `"`
/// and reads as that id; each line ends before the next begins.
#[verifier::spinoff_prover]
#[verifier::rlimit(60)]
pub proof fn lemma_written_parents(format: Seq<char>, rev: Revision)
    requires
        writable(rev),
        escapes_found(rev),
    ensures
        exists|pos: Seq<int>, vals: Seq<Seq<char>>|
            #![trigger pos.len(), vals.len()]
            pos.len() == rev.parent_ids@.len() && vals.len() == rev.parent_ids@.len() && (forall|i: int|
                0 <= i < vals.len() ==> holds_at(revision_xml(format, rev), pos[i], ref_line(#[trigger] vals[i]))
                    && unescape(vals[i]) == decode_utf8(rev.parent_ids@[i]@) && (forall|j: int|
                    0 <= j < vals[i].len() ==> vals[i][j] != '"')) && (forall|i: int|
                0 < i < pos.len() ==> pos[i - 1] + ref_line(vals[i - 1]).len() <= #[trigger] pos[i]),
{
    let ps = byte_seqs(rev.parent_ids@);
    let n = ps.len() as int;
    let p = Seq::new(ps.len(), |i: int| ref_line(escape_bytes(ps[i])));
    let vals = Seq::new(ps.len(), |i: int| escape_bytes(ps[i]));
    let x = revision_start_tag(format, rev) + message_element(rev) + "<parents>\n"@;
    let pos = Seq::new(ps.len(), |i: int| x.len() + piece_offset(p, i));
    assert forall|i: int| 0 <= i < n implies unescape(#[trigger] vals[i]) == decode_utf8(
        rev.parent_ids@[i]@,
    ) && (forall|j: int| 0 <= j < vals[i].len() ==> vals[i][j] != '"') by {
        assert(ps[i] == rev.parent_ids@[i]@);
        lemma_parent_value(rev, i);
    }
    if n > 0 {
        lemma_parent_refs_pieces(ps, n);
        assert(p.take(n) =~= p);
        lemma_pieces_in_place(p);
        let y = "</parents>\n"@ + properties_element(rev) + "</revision>\n"@;
        assert(revision_xml(format, rev) =~= x + chars_concat(p) + y);
        assert forall|i: int| 0 <= i < n implies holds_at(revision_xml(format, rev), pos[i], ref_line(#[trigger] vals[i])) by {
            assert(p[i] == ref_line(vals[i]));
            lemma_holds_in(x, chars_concat(p), y, piece_offset(p, i), p[i]);
        }
        assert forall|i: int| 0 < i < n implies pos[i - 1] + ref_line(vals[i - 1]).len() <= #[trigger] pos[i] by {
            assert(p[i - 1] == ref_line(vals[i - 1]));
            assert(piece_offset(p, i - 1) + p[i - 1].len() == piece_offset(p, (i - 1) + 1));
        }
    }
    assert(pos.len() == rev.parent_ids@.len() && vals.len() == rev.parent_ids@.len());
}

/// The element written for a property whose name is written as `n`: with
/// the value written as `v` as its text when `has_value`, else empty.
pub open spec fn property_line(n: Seq<char>, v: Seq<char>, has_value: bool) -> Seq<char> {
    if has_value {
        "<property name=\""@ + n + "\">"@ + v + "</property>\n"@
    } else {
        "<property name=\""@ + n + "\" />\n"@
    }
}

/// How a property value is written.
pub open spec fn written_value(v: Seq<u8>) -> Seq<char> {
    if v.len() > 0 {
        escape_string(escape_invalid(decode_utf8(v)))
    } else {
        seq![]
    }
}

proof fn lemma_property_elements_pieces(es: Seq<(Seq<char>, Seq<u8>)>, k: int)
    requires
        0 <= k <= es.len(),
    ensures
        property_elements(es, k) == chars_concat(
            Seq::new(
                es.len(),
                |i: int| property_line(escape_string(es[i].0), written_value(es[i].1), es[i].1.len() > 0),
            ).take(k),
        ),
    decreases k,
{
    let p = Seq::new(
        es.len(),
        |i: int| property_line(escape_string(es[i].0), written_value(es[i].1), es[i].1.len() > 0),
    );
    if k == 0 {
        assert(p.take(0) =~= Seq::<Seq<char>>::empty());
    } else {
        lemma_property_elements_pieces(es, k - 1);
        assert(p.take(k).drop_last() =~= p.take(k - 1));
        assert(p.take(k).last() == p[k - 1]);
        let e = es[k - 1];
        if e.1.len() > 0 {
            assert(property_element(e.0, e.1) =~= p[k - 1]);
        } else {
            assert(property_element(e.0, e.1) =~= p[k - 1]);
        }
    }
}

/// The written properties read back: for each property, in the order of
/// the entries (that of their names), the text holds a `property` element
/// whose `name` value is free of `"` and reads as the name, and whose text,
/// free of `<`, reads as the value with the characters XML cannot carry
/// rewritten as `\x` escapes (no text for an empty value); each element
/// ends before the next begins.
#[verifier::spinoff_prover]
#[verifier::rlimit(60)]
pub proof fn lemma_written_properties(format: Seq<char>, rev: Revision)
    requires
        writable(rev),
        escapes_found(rev),
    ensures
        exists|pos: Seq<int>, names: Seq<Seq<char>>, vals: Seq<Seq<char>>|
            #![trigger pos.len(), names.len(), vals.len()]
            pos.len() == rev.properties.entries().len() && names.len() == pos.len() && vals.len()
                == pos.len() && (forall|i: int|
                0 <= i < pos.len() ==> holds_at(
                    revision_xml(format, rev),
                    pos[i],
                    property_line(
                        #[trigger] names[i],
                        vals[i],
                        rev.properties.entries()[i].1.len() > 0,
                    ),
                ) && unescape(names[i]) == rev.properties.entries()[i].0 && (forall|j: int|
                    0 <= j < names[i].len() ==> names[i][j] != '"') && (rev.properties.entries()[i].1.len()
                    > 0 ==> unescape(vals[i]) == escape_invalid(
                    decode_utf8(rev.properties.entries()[i].1),
                )) && (forall|j: int| 0 <= j < vals[i].len() ==> vals[i][j] != '<')) && (forall|i: int|
                0 < i < pos.len() ==> pos[i - 1] + property_line(
                    names[i - 1],
                    vals[i - 1],
                    rev.properties.entries()[i - 1].1.len() > 0,
                ).len() <= #[trigger] pos[i]),
{
    let es = rev.properties.entries();
    let n = es.len() as int;
    let p = Seq::new(
        es.len(),
        |i: int| property_line(escape_string(es[i].0), written_value(es[i].1), es[i].1.len() > 0),
    );
    let names = Seq::new(es.len(), |i: int| escape_string(es[i].0));
    let vals = Seq::new(es.len(), |i: int| written_value(es[i].1));
    let x = revision_start_tag(format, rev) + message_element(rev) + parents_element(rev)
        + "<properties>"@;
    let pos = Seq::new(es.len(), |i: int| x.len() + piece_offset(p, i));
    assert forall|i: int| 0 <= i < n implies unescape(#[trigger] names[i]) == es[i].0 && (forall|j: int|
        0 <= j < names[i].len() ==> names[i][j] != '"') && (es[i].1.len() > 0 ==> unescape(vals[i])
        == escape_invalid(decode_utf8(es[i].1))) && (forall|j: int|
        0 <= j < vals[i].len() ==> vals[i][j] != '<') by {
        assert(property_escapes_found(es[i]));
        lemma_escape_string_roundtrip(es[i].0);
        lemma_escaped_string_is_plain(es[i].0);
        assert forall|j: int| 0 <= j < names[i].len() implies names[i][j] != '"' by {
            assert(names[i][j] == '&' || !crate::escape::unicode_escape_class(names[i][j]));
        }
        if es[i].1.len() > 0 {
            let t = escape_invalid(decode_utf8(es[i].1));
            lemma_escape_string_roundtrip(t);
            lemma_escaped_string_is_plain(t);
            assert forall|j: int| 0 <= j < vals[i].len() implies vals[i][j] != '<' by {
                assert(vals[i][j] == '&' || !crate::escape::unicode_escape_class(vals[i][j]));
            }
        }
    }
    if n > 0 {
        lemma_property_elements_pieces(es, n);
        assert(p.take(n) =~= p);
        lemma_pieces_in_place(p);
        let y = "</properties>\n"@ + "</revision>\n"@;
        assert(revision_xml(format, rev) =~= x + chars_concat(p) + y);
        assert forall|i: int| 0 <= i < n implies holds_at(
            revision_xml(format, rev),
            pos[i],
            property_line(#[trigger] names[i], vals[i], es[i].1.len() > 0),
        ) by {
            assert(p[i] == property_line(names[i], vals[i], es[i].1.len() > 0));
            lemma_holds_in(x, chars_concat(p), y, piece_offset(p, i), p[i]);
        }
        assert forall|i: int| 0 < i < n implies pos[i - 1] + property_line(
            names[i - 1],
            vals[i - 1],
            es[i - 1].1.len() > 0,
        ).len() <= #[trigger] pos[i] by {
            assert(p[i - 1] == property_line(names[i - 1], vals[i - 1], es[i - 1].1.len() > 0));
            assert(piece_offset(p, i - 1) + p[i - 1].len() == piece_offset(p, (i - 1) + 1));
        }
    }
    assert(pos.len() == es.len() && names.len() == pos.len() && vals.len() == pos.len());
}

} // verus!
