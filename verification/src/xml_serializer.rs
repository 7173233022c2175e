//! Reading and writing revisions in the XML formats 5 and 8.

use vstd::prelude::*;
use vstd::slice::slice_to_vec;
use vstd::utf8::*;

use crate::escape::{
    encode_and_escape_bytes, encode_and_escape_string, escape_bytes, escape_invalid,
    escape_invalid_chars, escape_string, lemma_escape_bytes_roundtrip,
    lemma_escape_string_roundtrip, lemma_unescape_plain, unescape, unicode_pattern_found,
    utf8_pattern_found,
};
use crate::lines::byte_seqs;
use crate::revision::{
    entries_map, is_reserved_id, keys_sorted, lemma_entries_map_push, Error, ErrorView,
    Properties, Revision,
};
use crate::text::{
    all_digits, decimal_signed, float_syntax, lemma_decimal_signed_parses, parse_i32,
    parse_i32_text, parses_as_float, push_str, str_eq, string_from_chars,
};
use crate::xml::{
    attribute, child, element_model, element_view, lemma_child_matches,
    lemma_element_children_match, model_matches, node_matches, parse_document, parse_error_text,
    text_of, view_child, view_element_children_from, xml_error_text, xml_root_view, xml_well_formed,
    ElementView, NodeView, XmlElement, XmlNode,
};

verus! {


/// `a` followed by `b`.
fn joined(a: &str, b: &str) -> (res: String)
    ensures
        res@ == a@ + b@,
{
    let mut out: Vec<char> = Vec::new();
    push_str(&mut out, a);
    push_str(&mut out, b);
    string_from_chars(&out)
}

/// The UTF-8 bytes of `s`.
fn text_bytes(s: &str) -> (res: Vec<u8>)
    ensures
        res@ == encode_utf8(s@),
{
    slice_to_vec(s.as_bytes())
}

/// The value of a `property` element: the bytes of its text, or none.
pub open spec fn property_value(c: XmlElement) -> Seq<u8> {
    match c.text {
        Some(t) => encode_utf8(t@),
        None => seq![],
    }
}

/// The properties that the first `k` children of a `properties` element
/// describe, or the error for the first child that is not a `property`
/// element with a `name` attribute. A later property of the same name
/// replaces an earlier one.
pub open spec fn properties_upto(children: Seq<XmlNode>, k: int) -> Result<
    Map<Seq<char>, Seq<u8>>,
    ErrorView,
>
    decreases k,
{
    if k <= 0 {
        Ok(Map::empty())
    } else {
        match properties_upto(children, k - 1) {
            Err(e) => Err(e),
            Ok(m) => match children[k - 1] {
                XmlNode::Other(r) => Err(ErrorView::Decode("bad tag under properties list: "@ + r@)),
                XmlNode::Element(c) => if c.name@ != "property"@ {
                    Err(ErrorView::Decode("bad tag under properties list: "@ + c.repr@))
                } else {
                    match attribute(c, "name"@) {
                        None => Err(ErrorView::Decode("property element missing name attribute"@)),
                        Some(n) => Ok(m.insert(n, property_value(c))),
                    }
                },
            },
        }
    }
}

/// The properties of a `revision` element: those of its first `properties`
/// child, none when it has no such child.
pub open spec fn properties_of(doc: XmlElement) -> Result<Map<Seq<char>, Seq<u8>>, ErrorView> {
    match child(doc, "properties"@) {
        None => Ok(Map::empty()),
        Some(p) => properties_upto(p.children@, p.children@.len() as int),
    }
}

proof fn lemma_properties_error_persists(children: Seq<XmlNode>, k: int, n: int)
    requires
        k <= n,
        properties_upto(children, k) is Err,
    ensures
        properties_upto(children, n) == properties_upto(children, k),
    decreases n - k,
{
    if k < n {
        lemma_properties_error_persists(children, k, n - 1);
    }
}

/// Reads the properties of a `revision` element: each child of its first
/// `properties` child must be a `property` element with a `name`
/// attribute; its text, as bytes, is the value (none when it has no text),
/// and a later property of the same name replaces an earlier one.
pub fn unpack_revision_properties(elt: &XmlElement) -> (res: Result<Properties, Error>)
    ensures
        match res {
            Ok(p) => properties_of(*elt) == Ok::<Map<Seq<char>, Seq<u8>>, ErrorView>(p.map()),
            Err(e) => properties_of(*elt) == Err::<Map<Seq<char>, Seq<u8>>, ErrorView>(e@),
        },
{
    let mut properties = Properties::new();
    let props_elt = match elt.get_child("properties") {
        None => {
            return Ok(properties);
        },
        Some(p) => p,
    };
    let n = props_elt.children.len();
    let mut k: usize = 0;
    while k < n
        invariant
            n == props_elt.children@.len(),
            k <= n,
            child(*elt, "properties"@) == Some(*props_elt),
            properties_upto(props_elt.children@, k as int) == Ok::<
                Map<Seq<char>, Seq<u8>>,
                ErrorView,
            >(properties.map()),
        decreases n - k,
    {
        let ghost children = props_elt.children@;
        match &props_elt.children[k] {
            XmlNode::Other(r) => {
                let e = Error::DecodeError(joined("bad tag under properties list: ", r.as_str()));
                proof {
                    lemma_properties_error_persists(children, k + 1, n as int);
                }
                return Err(e);
            },
            XmlNode::Element(c) => {
                if !str_eq(c.name.as_str(), "property") {
                    let e = Error::DecodeError(
                        joined("bad tag under properties list: ", c.repr.as_str()),
                    );
                    proof {
                        lemma_properties_error_persists(children, k + 1, n as int);
                    }
                    return Err(e);
                }
                let name = match c.get_attribute("name") {
                    None => {
                        let e = Error::DecodeError(
                            "property element missing name attribute".to_owned(),
                        );
                        proof {
                            lemma_properties_error_persists(children, k + 1, n as int);
                        }
                        return Err(e);
                    },
                    Some(name) => name,
                };
                let value = match &c.text {
                    Some(t) => text_bytes(t.as_str()),
                    None => Vec::new(),
                };
                assert(value@ == property_value(*c));
                properties.insert(name.clone(), value);
            },
        }
        k = k + 1;
    }
    Ok(properties)
}

/// Whether every element child of `children[i..]` has a `revision_id`
/// attribute.
pub open spec fn parents_ok_from(children: Seq<XmlNode>, i: int) -> bool
    decreases children.len() - i,
{
    if i < 0 || i >= children.len() {
        true
    } else {
        match children[i] {
            XmlNode::Element(c) => attribute(c, "revision_id"@) is Some && parents_ok_from(
                children,
                i + 1,
            ),
            XmlNode::Other(_) => parents_ok_from(children, i + 1),
        }
    }
}

/// The `revision_id` attributes, as bytes, of the element children of
/// `children[i..]`.
pub open spec fn parent_ids_from(children: Seq<XmlNode>, i: int) -> Seq<Seq<u8>>
    decreases children.len() - i,
{
    if i < 0 || i >= children.len() {
        seq![]
    } else {
        match children[i] {
            XmlNode::Element(c) => seq![encode_utf8(attribute(c, "revision_id"@)->0)]
                + parent_ids_from(children, i + 1),
            XmlNode::Other(_) => parent_ids_from(children, i + 1),
        }
    }
}

/// Whether each `revision_ref` under the first `parents` child of `doc` names
/// a revision.
pub open spec fn parents_ok(doc: XmlElement) -> bool {
    match child(doc, "parents"@) {
        None => true,
        Some(p) => parents_ok_from(p.children@, 0),
    }
}

/// The parent ids that `doc` lists.
pub open spec fn parent_ids(doc: XmlElement) -> Seq<Seq<u8>> {
    match child(doc, "parents"@) {
        None => seq![],
        Some(p) => parent_ids_from(p.children@, 0),
    }
}

/// The commit message of `doc`: the text of its first `message` child, empty
/// when there is none.
pub open spec fn message_of(doc: XmlElement) -> Seq<char> {
    match child(doc, "message"@) {
        None => seq![],
        Some(m) => match m.text {
            Some(t) => t@,
            None => seq![],
        },
    }
}

/// Whether reading `doc` in format `format` would stop on a malformed part:
/// a parent reference without a `revision_id`, a `timezone` that is not an
/// `i32`, or (once the revision id and the properties have been read) a
/// `timestamp` that is not the text of an `f64`.
pub open spec fn unpack_breaks(doc: XmlElement, format: Seq<char>) -> bool {
    &&& doc.name@ == "revision"@
    &&& match attribute(doc, "format"@) {
        Some(f) => f == format,
        None => true,
    }
    &&& (!parents_ok(doc) || match attribute(doc, "timezone"@) {
        Some(t) => parse_i32(t) is None,
        None => false,
    } || timestamp_breaks(doc))
}

/// Whether reading gets as far as the `timestamp` of `doc` (its revision
/// id is there and its properties read) and finds one that is not the text
/// of an `f64`.
pub open spec fn timestamp_breaks(doc: XmlElement) -> bool {
    &&& attribute(doc, "revision_id"@) is Some
    &&& properties_of(doc) is Ok
    &&& attribute(doc, "timestamp"@) matches Some(t) && !float_syntax(t)
}

/// The error of reading `doc` as a revision in format `format`, if any:
/// the checks are made in this order.
pub open spec fn unpack_error(doc: XmlElement, format: Seq<char>) -> Option<ErrorView> {
    if doc.name@ != "revision"@ {
        Some(ErrorView::Decode("expected revision element, got "@ + doc.name@))
    } else if attribute(doc, "format"@) is Some && attribute(doc, "format"@)->0 != format {
        Some(
            ErrorView::Decode(
                "invalid format version "@ + attribute(doc, "format"@)->0 + " on revision"@,
            ),
        )
    } else if attribute(doc, "revision_id"@) is None {
        Some(ErrorView::Encode("revision element missing revision_id attribute"@))
    } else if properties_of(doc) is Err {
        Some(properties_of(doc)->Err_0)
    } else if attribute(doc, "timestamp"@) is None {
        Some(ErrorView::Encode("revision element missing timestamp attribute"@))
    } else {
        None
    }
}

/// The text held by an optional `String`.
pub open spec fn opt_text(o: Option<String>) -> Option<Seq<char>> {
    match o {
        Some(s) => Some(s@),
        None => None,
    }
}

/// The bytes held by an optional byte vector.
pub open spec fn opt_bytes(o: Option<Vec<u8>>) -> Option<Seq<u8>> {
    match o {
        Some(b) => Some(b@),
        None => None,
    }
}

/// Whether `rev` is the revision that `doc` describes.
pub open spec fn unpacked(doc: XmlElement, rev: Revision) -> bool {
    &&& rev.revision_id@ == encode_utf8(attribute(doc, "revision_id"@)->0)
    &&& crate::lines::byte_seqs(rev.parent_ids@) == parent_ids(doc)
    &&& opt_text(rev.committer) == attribute(doc, "committer"@)
    &&& rev.message@ == message_of(doc)
    &&& properties_of(doc) == Ok::<Map<Seq<char>, Seq<u8>>, ErrorView>(rev.properties.map())
    &&& opt_bytes(rev.inventory_sha1) == match attribute(doc, "inventory_sha1"@) {
        Some(s) => Some(encode_utf8(s)),
        None => None,
    }
    &&& rev.timestamp@ == attribute(doc, "timestamp"@)->0
    &&& rev.timezone == match attribute(doc, "timezone"@) {
        Some(t) => parse_i32(t),
        None => None,
    }
}

/// Whether `r` is what reading `doc` in format `format` gives: the
/// revision it describes, or the first error it holds.
pub open spec fn unpack_outcome(doc: XmlElement, format: Seq<char>, r: Result<Revision, Error>) -> bool {
    match r {
        Ok(rev) => unpack_error(doc, format) is None && unpacked(doc, rev),
        Err(e) => unpack_error(doc, format) == Some(e@),
    }
}

/// Reads the revision that the element `document` describes, in the format
/// `format`.
pub fn unpack_revision_in_format(format: &str, document: &XmlElement) -> (res: Result<
    Revision,
    Error,
>)
    requires
        !unpack_breaks(*document, format@),
    ensures
        unpack_outcome(*document, format@, res),
{
    if !str_eq(document.name.as_str(), "revision") {
        return Err(Error::DecodeError(joined("expected revision element, got ", document.name.as_str())));
    }
    if let Some(f) = document.get_attribute("format") {
        if !str_eq(f.as_str(), format) {
            let m = joined("invalid format version ", f.as_str());
            return Err(Error::DecodeError(joined(m.as_str(), " on revision")));
        }
    }
    let mut parents: Vec<Vec<u8>> = Vec::new();
    match document.get_child("parents") {
        None => {},
        Some(p) => {
            let n = p.children.len();
            let mut i: usize = 0;
            while i < n
                invariant
                    n == p.children@.len(),
                    i <= n,
                    parents_ok_from(p.children@, 0) ==> parents_ok_from(p.children@, i as int),
                    parents_ok_from(p.children@, 0),
                    parent_ids_from(p.children@, 0) == crate::lines::byte_seqs(parents@)
                        + parent_ids_from(p.children@, i as int),
                decreases n - i,
            {
                let ghost before = crate::lines::byte_seqs(parents@);
                match &p.children[i] {
                    XmlNode::Element(c) => {
                        match c.get_attribute("revision_id") {
                            Some(id) => {
                                parents.push(text_bytes(id.as_str()));
                            },
                            None => {
                                assert(false);
                            },
                        }
                    },
                    XmlNode::Other(_) => {},
                }
                assert(crate::lines::byte_seqs(parents@) + parent_ids_from(p.children@, i + 1)
                    =~= before + parent_ids_from(p.children@, i as int));
                i = i + 1;
            }
            assert(parent_ids_from(p.children@, n as int) =~= Seq::<Seq<u8>>::empty());
            assert(crate::lines::byte_seqs(parents@) =~= parent_ids(*document));
        },
    }
    if document.get_child("parents").is_none() {
        assert(crate::lines::byte_seqs(parents@) =~= parent_ids(*document));
    }
    let timezone = match document.get_attribute("timezone") {
        None => None,
        Some(t) => parse_i32_text(t.as_str()),
    };
    let message = match document.get_child("message") {
        None => String::new(),
        Some(m) => match &m.text {
            Some(t) => t.clone(),
            None => String::new(),
        },
    };
    let revision_id = match document.get_attribute("revision_id") {
        None => {
            return Err(Error::EncodeError("revision element missing revision_id attribute".to_owned()));
        },
        Some(r) => text_bytes(r.as_str()),
    };
    let committer = match document.get_attribute("committer") {
        None => None,
        Some(c) => Some(c.clone()),
    };
    let properties = match unpack_revision_properties(document) {
        Ok(p) => p,
        Err(e) => {
            return Err(e);
        },
    };
    let inventory_sha1 = match document.get_attribute("inventory_sha1") {
        None => None,
        Some(s) => Some(text_bytes(s.as_str())),
    };
    let timestamp = match document.get_attribute("timestamp") {
        None => {
            return Err(Error::EncodeError("revision element missing timestamp attribute".to_owned()));
        },
        Some(t) => t.clone(),
    };
    Ok(
        Revision::new(
            revision_id,
            parents,
            committer,
            message,
            properties,
            inventory_sha1,
            timestamp,
            timezone,
        ),
    )
}

/// Whether every parent reference of `doc` names a revision.
fn parents_well_formed(doc: &XmlElement) -> (res: bool)
    ensures
        res == parents_ok(*doc),
{
    match doc.get_child("parents") {
        None => true,
        Some(p) => {
            let n = p.children.len();
            let mut i: usize = n;
            let mut ok = true;
            while i > 0
                invariant
                    n == p.children@.len(),
                    i <= n,
                    ok == parents_ok_from(p.children@, i as int),
                decreases i,
            {
                i = i - 1;
                match &p.children[i] {
                    XmlNode::Element(c) => {
                        ok = c.get_attribute("revision_id").is_some() && ok;
                    },
                    XmlNode::Other(_) => {},
                }
            }
            ok
        },
    }
}

/// Whether reading `doc` in format `format` stops on a malformed part (see
/// `unpack_breaks`).
pub fn unpack_would_break(format: &str, doc: &XmlElement) -> (res: bool)
    ensures
        res == unpack_breaks(*doc, format@),
{
    if !str_eq(doc.name.as_str(), "revision") {
        return false;
    }
    if let Some(f) = doc.get_attribute("format") {
        if !str_eq(f.as_str(), format) {
            return false;
        }
    }
    if !parents_well_formed(doc) {
        return true;
    }
    if let Some(t) = doc.get_attribute("timezone") {
        if parse_i32_text(t.as_str()).is_none() {
            return true;
        }
    }
    if doc.get_attribute("revision_id").is_none() {
        return false;
    }
    if unpack_revision_properties(doc).is_err() {
        return false;
    }
    match doc.get_attribute("timestamp") {
        None => false,
        Some(t) => !parses_as_float(t.as_str()),
    }
}

/// Reads the revision that `doc` describes in format `format`, or gives
/// `None` where reading stops on a malformed part: a parent reference
/// without a `revision_id`, a `timezone` that is not an `i32`, or a
/// `timestamp` that is not the text of an `f64`.
pub fn unpack_revision_checked(format: &str, doc: &XmlElement) -> (res: Option<Result<Revision, Error>>)
    ensures
        res is None <==> unpack_breaks(*doc, format@),
        res matches Some(r) ==> unpack_outcome(*doc, format@, r),
{
    if unpack_would_break(format, doc) {
        None
    } else {
        Some(unpack_revision_in_format(format, doc))
    }
}

/// Whether `res` is what reading the XML text `text` in format `format`
/// gives: the error for text that is not well-formed XML, else what
/// `unpack_revision_checked` gives for a model of the root element that the
/// text describes.
pub open spec fn read_outcome(text: Seq<u8>, format: Seq<char>, res: Option<Result<Revision, Error>>) -> bool {
    &&& !xml_well_formed(text) ==> (res matches Some(Err(e)) && e@ == ErrorView::Decode(
        parse_error_message(xml_error_text(text)),
    ))
    &&& xml_well_formed(text) ==> exists|doc: XmlElement|
        #[trigger] model_matches(doc, xml_root_view(text)) && (res is None <==> unpack_breaks(
            doc,
            format,
        )) && (res matches Some(r) ==> unpack_outcome(doc, format, r))
}

/// The message of the error for a document that is not well-formed XML.
pub open spec fn parse_error_message(detail: Seq<char>) -> Seq<char> {
    "XML parse error: "@ + detail
}


/// The `committer` attribute, with a trailing space, when there is a
/// committer.
pub open spec fn committer_attribute(rev: Revision) -> Seq<char> {
    match rev.committer {
        Some(c) => "committer=\""@ + escape_string(c@) + "\" "@,
        None => seq![],
    }
}

/// The `inventory_sha1` attribute, with a trailing space, when there is an
/// inventory checksum.
pub open spec fn inventory_attribute(rev: Revision) -> Seq<char> {
    match rev.inventory_sha1 {
        Some(i) => "inventory_sha1=\""@ + escape_bytes(i@) + "\" "@,
        None => seq![],
    }
}

/// The `timezone` attribute, with a leading space, when there is a time
/// zone.
pub open spec fn timezone_attribute(rev: Revision) -> Seq<char> {
    match rev.timezone {
        Some(z) => " timezone=\""@ + decimal_signed(z as int) + "\""@,
        None => seq![],
    }
}

/// The start tag of the `revision` element, and its line break.
pub open spec fn revision_start_tag(format: Seq<char>, rev: Revision) -> Seq<char> {
    "<revision "@ + committer_attribute(rev) + "format=\""@ + format + "\" "@ + inventory_attribute(
        rev,
    ) + "revision_id=\""@ + escape_bytes(rev.revision_id@) + "\" timestamp=\""@ + rev.timestamp@
        + "\""@ + timezone_attribute(rev) + ">\n"@
}

/// The `message` element and its line break.
pub open spec fn message_element(rev: Revision) -> Seq<char> {
    "<message>"@ + escape_string(escape_invalid(rev.message@)) + "</message>\n"@
}

/// The `revision_ref` lines of the first `k` parents.
pub open spec fn parent_refs(parents: Seq<Seq<u8>>, k: int) -> Seq<char>
    decreases k,
{
    if k <= 0 {
        seq![]
    } else {
        parent_refs(parents, k - 1) + "<revision_ref revision_id=\""@ + escape_bytes(parents[k - 1])
            + "\" />\n"@
    }
}

/// The `parents` element, when there are parents.
pub open spec fn parents_element(rev: Revision) -> Seq<char> {
    let ps = crate::lines::byte_seqs(rev.parent_ids@);
    if ps.len() == 0 {
        seq![]
    } else {
        "<parents>\n"@ + parent_refs(ps, ps.len() as int) + "</parents>\n"@
    }
}

/// The `property` element of the property `name` with value `value`: with
/// the value as text, or empty when the value is.
pub open spec fn property_element(name: Seq<char>, value: Seq<u8>) -> Seq<char> {
    if value.len() > 0 {
        "<property name=\""@ + escape_string(name) + "\">"@ + escape_string(
            escape_invalid(decode_utf8(value)),
        ) + "</property>\n"@
    } else {
        "<property name=\""@ + escape_string(name) + "\" />\n"@
    }
}

/// The `property` elements of the first `k` entries.
pub open spec fn property_elements(entries: Seq<(Seq<char>, Seq<u8>)>, k: int) -> Seq<char>
    decreases k,
{
    if k <= 0 {
        seq![]
    } else {
        property_elements(entries, k - 1) + property_element(entries[k - 1].0, entries[k - 1].1)
    }
}

/// The `properties` element, when there are properties; they come in the
/// order of their names.
pub open spec fn properties_element(rev: Revision) -> Seq<char> {
    let es = rev.properties.entries();
    if es.len() == 0 {
        seq![]
    } else {
        "<properties>"@ + property_elements(es, es.len() as int) + "</properties>\n"@
    }
}

/// The XML text of `rev` in format `format`.
pub open spec fn revision_xml(format: Seq<char>, rev: Revision) -> Seq<char> {
    revision_start_tag(format, rev) + message_element(rev) + parents_element(rev)
        + properties_element(rev) + "</revision>\n"@
}

/// Whether `rev` can be written: its ids and inventory checksum are UTF-8,
/// no parent id is reserved, and the non-empty property values are UTF-8.
pub open spec fn writable(rev: Revision) -> bool {
    &&& valid_utf8(rev.revision_id@)
    &&& match rev.inventory_sha1 {
        Some(i) => valid_utf8(i@),
        None => true,
    }
    &&& forall|i: int|
        0 <= i < rev.parent_ids@.len() ==> valid_utf8(#[trigger] rev.parent_ids@[i]@)
            && !is_reserved_id(rev.parent_ids@[i]@)
    &&& forall|i: int|
        0 <= i < rev.properties.entries().len() ==> #[trigger] rev.properties.entries()[i].1.len()
            > 0 ==> valid_utf8(rev.properties.entries()[i].1)
    &&& timestamp_text(rev.timestamp@)
}

/// Whether `t` is how `{:.3}` writes an `f64`: `NaN`, `inf` or `-inf`, or
/// an optional `-`, decimal digits, `.` and three decimal digits.
pub open spec fn timestamp_text(t: Seq<char>) -> bool {
    ||| t == "NaN"@
    ||| t == "inf"@
    ||| t == "-inf"@
    ||| {
        let body = if t.len() > 0 && t[0] == '-' {
            t.drop_first()
        } else {
            t
        };
        &&& body.len() >= 5
        &&& all_digits(body.subrange(0, body.len() - 4))
        &&& body[body.len() - 4] == '.'
        &&& all_digits(body.subrange(body.len() - 3, body.len() as int))
    }
}

/// A timestamp text is the text of an `f64`.
proof fn lemma_timestamp_is_float(t: Seq<char>)
    requires
        timestamp_text(t),
    ensures
        float_syntax(t),
{
    reveal_strlit("NaN");
    reveal_strlit("inf");
    reveal_strlit("-inf");
    reveal_strlit("nan");
    if t == "NaN"@ {
        assert(crate::text::unsigned_part(t) == t);
        assert(crate::text::ci_word(t, "nan"@));
    } else if t == "inf"@ {
        assert(crate::text::unsigned_part(t) == t);
        assert(crate::text::ci_word(t, "inf"@));
    } else if t == "-inf"@ {
        assert(crate::text::unsigned_part(t) =~= "inf"@);
        assert(crate::text::ci_word("inf"@, "inf"@));
    } else {
        let body = if t.len() > 0 && t[0] == '-' { t.drop_first() } else { t };
        let p = body.len() - 4;
        assert(body.subrange(0, p)[0] == body[0]);
        assert(crate::text::unsigned_part(t) == body);
        assert forall|i: int| 0 <= i < body.len() implies crate::text::is_digit(#[trigger] body[i])
            || (i == p && body[i] == '.') by {
            if i < p {
                assert(body[i] == body.subrange(0, p)[i]);
            } else if i > p {
                assert(body[i] == body.subrange(p + 1, body.len() as int)[i - p - 1]);
            }
        }
        crate::text::lemma_exp_index_at(body, body.len() as int);
        let m = body.take(body.len() as int);
        assert(m =~= body);
        assert(crate::text::is_digit(m[0]));
        assert(crate::text::mantissa_syntax(m));
    }
}

/// A timestamp text holds no markup character.
proof fn lemma_timestamp_plain(t: Seq<char>)
    requires
        timestamp_text(t),
    ensures
        forall|i: int| 0 <= i < t.len() ==> !crate::escape::is_markup_char(#[trigger] t[i]),
{
    reveal_strlit("NaN");
    reveal_strlit("inf");
    reveal_strlit("-inf");
    if t != "NaN"@ && t != "inf"@ && t != "-inf"@ {
        let off: int = if t.len() > 0 && t[0] == '-' { 1 } else { 0 };
        let body = if t.len() > 0 && t[0] == '-' { t.drop_first() } else { t };
        assert forall|i: int| 0 <= i < t.len() implies !crate::escape::is_markup_char(#[trigger] t[i]) by {
            if i >= off {
                let j = i - off;
                assert(t[i] == body[j]);
                if j < body.len() - 4 {
                    assert(body[j] == body.subrange(0, body.len() - 4)[j]);
                } else if j > body.len() - 4 {
                    assert(body[j] == body.subrange(body.len() - 3, body.len() as int)[j - (body.len() - 3)]);
                }
            }
        }
    }
}

/// Whether the regex found, in the text of a property entry that was
/// escaped, what the pattern is written to match.
pub open spec fn property_escapes_found(e: (Seq<char>, Seq<u8>)) -> bool {
    &&& unicode_pattern_found(e.0)
    &&& e.1.len() > 0 ==> unicode_pattern_found(escape_invalid(decode_utf8(e.1)))
}

/// Whether the regexes found, in every text that writing `rev` escaped,
/// what their patterns are written to match.
pub open spec fn escapes_found(rev: Revision) -> bool {
    &&& utf8_pattern_found(rev.revision_id@)
    &&& (rev.committer matches Some(c) ==> unicode_pattern_found(c@))
    &&& (rev.inventory_sha1 matches Some(i) ==> utf8_pattern_found(i@))
    &&& unicode_pattern_found(escape_invalid(rev.message@))
    &&& forall|i: int|
        0 <= i < rev.parent_ids@.len() ==> utf8_pattern_found(#[trigger] rev.parent_ids@[i]@)
    &&& forall|i: int|
        0 <= i < rev.properties.entries().len() ==> property_escapes_found(
            #[trigger] rev.properties.entries()[i],
        )
}

/// Appends the escaped form of `s` to `out`.
fn push_escaped_string(out: &mut Vec<char>, s: &str)
    ensures
        final(out)@ == old(out)@ + escape_string(s@),
        unicode_pattern_found(s@),
{
    let e = encode_and_escape_string(s);
    push_str(out, e.as_str());
}

/// Appends the escaped form of the UTF-8 bytes `b` to `out`.
fn push_escaped_bytes(out: &mut Vec<char>, b: &[u8])
    requires
        valid_utf8(b@),
    ensures
        final(out)@ == old(out)@ + escape_bytes(b@),
        utf8_pattern_found(b@),
{
    let e = encode_and_escape_bytes(b);
    push_str(out, e.as_str());
}

fn push_committer_attribute(out: &mut Vec<char>, rev: &Revision)
    ensures
        final(out)@ == old(out)@ + committer_attribute(*rev),
        rev.committer matches Some(c) ==> unicode_pattern_found(c@),
{
    if let Some(committer) = &rev.committer {
        push_str(out, "committer=\"");
        push_escaped_string(out, committer.as_str());
        push_str(out, "\" ");
    }
    assert(out@ =~= old(out)@ + committer_attribute(*rev));
}

fn push_inventory_attribute(out: &mut Vec<char>, rev: &Revision)
    requires
        writable(*rev),
    ensures
        final(out)@ == old(out)@ + inventory_attribute(*rev),
        rev.inventory_sha1 matches Some(i) ==> utf8_pattern_found(i@),
{
    if let Some(inv) = &rev.inventory_sha1 {
        push_str(out, "inventory_sha1=\"");
        push_escaped_bytes(out, inv.as_slice());
        push_str(out, "\" ");
    }
    assert(out@ =~= old(out)@ + inventory_attribute(*rev));
}

fn push_timezone_attribute(out: &mut Vec<char>, rev: &Revision)
    ensures
        final(out)@ == old(out)@ + timezone_attribute(*rev),
{
    if let Some(tz) = rev.timezone {
        push_str(out, " timezone=\"");
        crate::text::push_decimal_signed(out, tz);
        push_str(out, "\"");
    }
    assert(out@ =~= old(out)@ + timezone_attribute(*rev));
}

fn push_start_tag(out: &mut Vec<char>, format: &str, rev: &Revision)
    requires
        writable(*rev),
    ensures
        final(out)@ == old(out)@ + revision_start_tag(format@, *rev),
        utf8_pattern_found(rev.revision_id@),
        rev.committer matches Some(c) ==> unicode_pattern_found(c@),
        rev.inventory_sha1 matches Some(i) ==> utf8_pattern_found(i@),
{
    push_str(out, "<revision ");
    push_committer_attribute(out, rev);
    push_str(out, "format=\"");
    push_str(out, format);
    push_str(out, "\" ");
    push_inventory_attribute(out, rev);
    push_str(out, "revision_id=\"");
    push_escaped_bytes(out, rev.revision_id.as_slice());
    push_str(out, "\" timestamp=\"");
    push_str(out, rev.timestamp.as_str());
    push_str(out, "\"");
    push_timezone_attribute(out, rev);
    push_str(out, ">\n");
    assert(out@ =~= old(out)@ + revision_start_tag(format@, *rev));
}

fn push_message(out: &mut Vec<char>, rev: &Revision)
    ensures
        final(out)@ == old(out)@ + message_element(*rev),
        unicode_pattern_found(escape_invalid(rev.message@)),
{
    push_str(out, "<message>");
    let m = escape_invalid_chars(rev.message.as_str());
    push_escaped_string(out, m.as_str());
    push_str(out, "</message>\n");
    assert(out@ =~= old(out)@ + message_element(*rev));
}

fn push_parents(out: &mut Vec<char>, rev: &Revision)
    requires
        writable(*rev),
    ensures
        final(out)@ == old(out)@ + parents_element(*rev),
        forall|i: int|
            0 <= i < rev.parent_ids@.len() ==> utf8_pattern_found(#[trigger] rev.parent_ids@[i]@),
{
    let ghost ps = crate::lines::byte_seqs(rev.parent_ids@);
    if rev.parent_ids.len() == 0 {
        assert(out@ =~= old(out)@ + parents_element(*rev));
        return;
    }
    push_str(out, "<parents>\n");
    let ghost start = out@;
    let mut k: usize = 0;
    while k < rev.parent_ids.len()
        invariant
            writable(*rev),
            ps == crate::lines::byte_seqs(rev.parent_ids@),
            k <= rev.parent_ids@.len(),
            out@ == start + parent_refs(ps, k as int),
            forall|i: int| 0 <= i < k ==> utf8_pattern_found(#[trigger] rev.parent_ids@[i]@),
        decreases rev.parent_ids@.len() - k,
    {
        let p = &rev.parent_ids[k];
        assert(valid_utf8(rev.parent_ids@[k as int]@));
        push_str(out, "<revision_ref revision_id=\"");
        push_escaped_bytes(out, p.as_slice());
        push_str(out, "\" />\n");
        k = k + 1;
        assert(out@ =~= start + parent_refs(ps, k as int));
    }
    push_str(out, "</parents>\n");
    assert(out@ =~= old(out)@ + parents_element(*rev));
}

fn push_properties(out: &mut Vec<char>, rev: &Revision)
    requires
        writable(*rev),
    ensures
        final(out)@ == old(out)@ + properties_element(*rev),
        forall|i: int|
            0 <= i < rev.properties.entries().len() ==> property_escapes_found(
                #[trigger] rev.properties.entries()[i],
            ),
{
    let ghost es = rev.properties.entries();
    let n = rev.properties.len();
    if n == 0 {
        assert(out@ =~= old(out)@ + properties_element(*rev));
        return;
    }
    push_str(out, "<properties>");
    let ghost start = out@;
    let mut k: usize = 0;
    while k < n
        invariant
            writable(*rev),
            es == rev.properties.entries(),
            n == es.len(),
            k <= n,
            out@ == start + property_elements(es, k as int),
            forall|i: int| 0 <= i < k ==> property_escapes_found(#[trigger] es[i]),
        decreases n - k,
    {
        let (name, value) = rev.properties.entry(k);
        let ghost before = out@;
        if value.len() > 0 {
            assert(valid_utf8(es[k as int].1));
            push_str(out, "<property name=\"");
            push_escaped_string(out, name.as_str());
            push_str(out, "\">");
            match crate::text::str_from_utf8(value.as_slice()) {
                Some(text) => {
                    let cleaned = escape_invalid_chars(text);
                    push_escaped_string(out, cleaned.as_str());
                },
                None => {
                    assert(false);
                },
            }
            push_str(out, "</property>\n");
        } else {
            push_str(out, "<property name=\"");
            push_escaped_string(out, name.as_str());
            push_str(out, "\" />\n");
        }
        assert(out@ =~= before + property_element(es[k as int].0, es[k as int].1));
        k = k + 1;
        assert(out@ =~= start + property_elements(es, k as int));
    }
    push_str(out, "</properties>\n");
    assert(out@ =~= old(out)@ + properties_element(*rev));
}

/// The XML text of `rev` in format `format`, as UTF-8 bytes: the
/// `revision` element with its attributes, then the `message`, `parents`
/// and `properties` elements, each element on lines of its own.
pub fn write_revision_in_format(format: &str, rev: &Revision) -> (res: Result<Vec<u8>, Error>)
    requires
        writable(*rev),
    ensures
        res matches Ok(b) && b@ == encode_utf8(revision_xml(format@, *rev)),
        escapes_found(*rev),
{
    let mut out: Vec<char> = Vec::new();
    push_start_tag(&mut out, format, rev);
    push_message(&mut out, rev);
    push_parents(&mut out, rev);
    push_properties(&mut out, rev);
    push_str(&mut out, "</revision>\n");
    assert(out@ =~= revision_xml(format@, *rev));
    let s = string_from_chars(&out);
    Ok(text_bytes(s.as_str()))
}

/// A serialiser of revisions to and from XML, in the format that
/// `format_num` names.
pub trait XMLRevisionSerializer {
    /// The number of the format.
    spec fn format_number(&self) -> Seq<char>;

    /// The number of the format, as it stands in the `format` attribute.
    fn format_num(&self) -> (res: &'static str)
        ensures
            res@ == self.format_number(),
    ;

    /// The name of the format: its number.
    fn format_name(&self) -> (res: &'static str)
        ensures
            res@ == self.format_number(),
    {
        self.format_num()
    }

    /// Whether writing loses the characters that XML cannot carry: it
    /// does, they are written as `\x` escapes.
    fn squashes_xml_invalid_characters(&self) -> (res: bool)
        ensures
            res,
    {
        true
    }

    /// The XML text of `rev`, as UTF-8 bytes.
    fn write_revision_to_string(&self, rev: &Revision) -> (res: Result<Vec<u8>, Error>)
        requires
            writable(*rev),
        ensures
            res matches Ok(b) && b@ == encode_utf8(revision_xml(self.format_number(), *rev)),
            escapes_found(*rev),
    {
        write_revision_in_format(self.format_num(), rev)
    }

    /// The lines of the XML text of `rev`, each with its line break.
    fn write_revision_to_lines(&self, rev: &Revision) -> (res: Vec<Vec<u8>>)
        requires
            writable(*rev),
        ensures
            crate::lines::byte_seqs(res@) == crate::lines::lines(
                encode_utf8(revision_xml(self.format_number(), *rev)),
            ),
            crate::lines::join(crate::lines::byte_seqs(res@)) == encode_utf8(
                revision_xml(self.format_number(), *rev),
            ),
            forall|i: int|
                0 <= i < res@.len() ==> (#[trigger] res@[i])@.len() > 0 && res@[i]@.last()
                    == crate::lines::newline(),
            forall|i: int, j: int|
                0 <= i < res@.len() && 0 <= j < res@[i]@.len() - 1 ==> #[trigger] res@[i]@[j]
                    != crate::lines::newline(),
            res@.len() == crate::lines::count_newlines(
                encode_utf8(revision_xml(self.format_number(), *rev)),
            ),
    {
        proof {
            lemma_revision_lines(self.format_number(), *rev);
            crate::lines::lemma_lines_reassemble(encode_utf8(revision_xml(self.format_number(), *rev)));
        }
        let res = match self.write_revision_to_string(rev) {
            Ok(buf) => crate::lines::split_lines(buf.as_slice()),
            Err(_) => Vec::new(),
        };
        proof {
            let ls = crate::lines::lines(encode_utf8(revision_xml(self.format_number(), *rev)));
            assert forall|i: int| 0 <= i < res@.len() implies (#[trigger] res@[i])@.len() > 0
                && res@[i]@.last() == crate::lines::newline() by {
                assert(crate::lines::byte_seqs(res@)[i] == res@[i]@);
                assert(ls[i] == res@[i]@);
            }
            assert forall|i: int, j: int|
                0 <= i < res@.len() && 0 <= j < res@[i]@.len() - 1 implies #[trigger] res@[i]@[j]
                != crate::lines::newline() by {
                assert(crate::lines::byte_seqs(res@)[i] == res@[i]@);
                assert(ls[i] == res@[i]@);
                assert(ls[i][j] != crate::lines::newline());
            }
        }
        res
    }

    /// Reads the revision that the element `document` describes.
    fn unpack_revision(&self, document: &XmlElement) -> (res: Result<Revision, Error>)
        requires
            !unpack_breaks(*document, self.format_number()),
        ensures
            unpack_outcome(*document, self.format_number(), res),
    {
        unpack_revision_in_format(self.format_num(), document)
    }

    /// Reads the revision that the element `document`, as `xmltree` parsed
    /// it, describes; `None` where reading stops on a malformed part (a
    /// parent reference without a `revision_id`, or a `timezone` that is not
    /// an `i32`). What is given is what `unpack_revision_checked` gives for
    /// the element's plain model, which holds what the element holds.
    fn unpack_document(&self, document: &xmltree::Element) -> (res: Option<Result<Revision, Error>>)
        ensures
            exists|doc: XmlElement|
                #[trigger] model_matches(doc, element_view(*document)) && (res is None
                    <==> unpack_breaks(doc, self.format_number())) && (res matches Some(r)
                    ==> unpack_outcome(doc, self.format_number(), r)),
    {
        let doc = element_model(document);
        unpack_revision_checked(self.format_num(), &doc)
    }

    /// Reads a revision from XML text: the error for text that is not
    /// well-formed XML, else what `unpack_revision_checked` gives for a
    /// model of the root element that the text describes.
    fn read_revision_from_string(&self, text: &[u8]) -> (res: Option<Result<Revision, Error>>)
        ensures
            read_outcome(text@, self.format_number(), res),
    {
        match parse_document(text) {
            Ok(element) => self.unpack_document(&element),
            Err(e) => {
                let detail = parse_error_text(&e);
                let r: Result<Revision, Error> = Err(
                    Error::DecodeError(joined("XML parse error: ", detail.as_str())),
                );
                Some(r)
            },
        }
    }
}

/// The serialiser of format 8.
pub struct XMLRevisionSerializer8;

impl XMLRevisionSerializer for XMLRevisionSerializer8 {
    open spec fn format_number(&self) -> Seq<char> {
        "8"@
    }

    fn format_num(&self) -> (res: &'static str) {
        "8"
    }
}

/// The serialiser of format 5.
pub struct XMLRevisionSerializer5;

impl XMLRevisionSerializer for XMLRevisionSerializer5 {
    open spec fn format_number(&self) -> Seq<char> {
        "5"@
    }

    fn format_num(&self) -> (res: &'static str) {
        "5"
    }
}

/// The XML text of a revision splits into lines that join back into it,
/// each ending with a line break.
pub proof fn lemma_revision_lines(format: Seq<char>, rev: Revision)
    ensures
        encode_utf8(revision_xml(format, rev)).len() > 0,
        encode_utf8(revision_xml(format, rev)).last() == crate::lines::newline(),
        crate::lines::join(crate::lines::lines(encode_utf8(revision_xml(format, rev))))
            == encode_utf8(revision_xml(format, rev)),
        forall|i: int|
            0 <= i < crate::lines::lines(encode_utf8(revision_xml(format, rev))).len()
                ==> #[trigger] crate::lines::lines(encode_utf8(revision_xml(format, rev)))[i].last()
                == crate::lines::newline(),
        forall|i: int, j: int|
            0 <= i < crate::lines::lines(encode_utf8(revision_xml(format, rev))).len() && 0 <= j
                < crate::lines::lines(encode_utf8(revision_xml(format, rev)))[i].len() - 1
                ==> #[trigger] crate::lines::lines(encode_utf8(revision_xml(format, rev)))[i][j]
                != crate::lines::newline(),
        crate::lines::lines(encode_utf8(revision_xml(format, rev))).len()
            == crate::lines::count_newlines(encode_utf8(revision_xml(format, rev))),
{
    let x = revision_start_tag(format, rev) + message_element(rev) + parents_element(rev)
        + properties_element(rev);
    let end = "</revision>\n"@;
    reveal_strlit("</revision>\n");
    crate::text::lemma_encode_utf8_concat(x, end);
    assert(is_ascii_chars(end));
    is_ascii_chars_encode_utf8(end);
    let b = encode_utf8(revision_xml(format, rev));
    assert(revision_xml(format, rev) == x + end);
    assert(encode_utf8(end).len() == end.len());
    assert(encode_utf8(end)[end.len() - 1] == end[end.len() - 1] as u8);
    assert(b.last() == crate::lines::newline());
    crate::lines::lemma_lines_reassemble(b);
    crate::lines::lemma_lines_count(b);
}

/// Whether `o` is what an XML reader makes of the written text `w`: that
/// text with its references resolved, or no text node when that is empty.
pub open spec fn text_reads(o: Option<String>, w: Seq<char>) -> bool {
    match o {
        Some(t) => t@ == unescape(w),
        None => unescape(w).len() == 0,
    }
}

/// The element children of `children[i..]`, in order.
pub open spec fn element_children_from(children: Seq<XmlNode>, i: int) -> Seq<XmlElement>
    decreases children.len() - i,
{
    if i < 0 || i >= children.len() {
        seq![]
    } else {
        match children[i] {
            XmlNode::Element(c) => seq![c] + element_children_from(children, i + 1),
            XmlNode::Other(_) => element_children_from(children, i + 1),
        }
    }
}

/// The text written for a property value: the escaped text it encodes,
/// or nothing for an empty value.
pub open spec fn property_text(v: Seq<u8>) -> Seq<char> {
    if v.len() > 0 {
        escape_string(escape_invalid(decode_utf8(v)))
    } else {
        seq![]
    }
}

/// What is read back of a written property value: the text it encodes,
/// with the characters XML cannot carry written as `\x` escapes.
pub open spec fn cleaned_value(v: Seq<u8>) -> Seq<u8> {
    if v.len() > 0 {
        encode_utf8(escape_invalid(decode_utf8(v)))
    } else {
        seq![]
    }
}

/// The properties read back of written ones.
pub open spec fn read_back_entries(es: Seq<(Seq<char>, Seq<u8>)>) -> Seq<(Seq<char>, Seq<u8>)> {
    Seq::new(es.len(), |i: int| (es[i].0, cleaned_value(es[i].1)))
}

/// Whether `parents` is what an XML reader makes of the `parents` element
/// written for the ids `ps`: none when there are none, else an element whose
/// element children are, in order, one per id, each with the id as its
/// `revision_id`.
pub open spec fn parents_read(parents: Option<XmlElement>, ps: Seq<Seq<u8>>) -> bool {
    if ps.len() == 0 {
        parents is None
    } else {
        parents matches Some(p) && element_children_from(p.children@, 0).len() == ps.len()
            && forall|i: int|
            0 <= i < ps.len() ==> attribute(
                #[trigger] element_children_from(p.children@, 0)[i],
                "revision_id"@,
            ) == Some(unescape(escape_bytes(ps[i])))
    }
}

/// Whether `n` is what an XML reader makes of the `property` element
/// written for the entry `e`.
pub open spec fn property_read(n: XmlNode, e: (Seq<char>, Seq<u8>)) -> bool {
    &&& n matches XmlNode::Element(c)
    &&& c.name@ == "property"@
    &&& attribute(c, "name"@) == Some(unescape(escape_string(e.0)))
    &&& text_reads(c.text, property_text(e.1))
}

/// Whether `props` is what an XML reader makes of the `properties` element
/// written for the entries `es`: none when there are none, else an element
/// whose children are, in order, one `property` element per entry.
pub open spec fn properties_read(props: Option<XmlElement>, es: Seq<(Seq<char>, Seq<u8>)>) -> bool {
    if es.len() == 0 {
        props is None
    } else {
        props matches Some(p) && p.children@.len() == es.len() && forall|i: int|
            0 <= i < es.len() ==> property_read(#[trigger] p.children@[i], es[i])
    }
}

/// Whether `doc` is what an XML reader makes of `revision_xml(format,
/// rev)`: the same elements and attributes, each attribute value and text
/// the written one with its references resolved.
pub open spec fn reads_as(doc: XmlElement, format: Seq<char>, rev: Revision) -> bool {
    &&& doc.name@ == "revision"@
    &&& attribute(doc, "format"@) == Some(unescape(format))
    &&& attribute(doc, "committer"@) == match rev.committer {
        Some(c) => Some(unescape(escape_string(c@))),
        None => None,
    }
    &&& attribute(doc, "inventory_sha1"@) == match rev.inventory_sha1 {
        Some(i) => Some(unescape(escape_bytes(i@))),
        None => None,
    }
    &&& attribute(doc, "revision_id"@) == Some(unescape(escape_bytes(rev.revision_id@)))
    &&& attribute(doc, "timestamp"@) == Some(unescape(rev.timestamp@))
    &&& attribute(doc, "timezone"@) == match rev.timezone {
        Some(z) => Some(unescape(decimal_signed(z as int))),
        None => None,
    }
    &&& child(doc, "message"@) matches Some(m) && text_reads(
        m.text,
        escape_string(escape_invalid(rev.message@)),
    )
    &&& parents_read(child(doc, "parents"@), byte_seqs(rev.parent_ids@))
    &&& properties_read(child(doc, "properties"@), rev.properties.entries())
}

/// Whether `rev2`, read back, holds what `rev` held when it was written:
/// all of it, but that characters XML cannot carry in the message and the
/// property values are read as their `\x` escapes.
pub open spec fn read_back(rev: Revision, rev2: Revision) -> bool {
    &&& rev2.revision_id@ == rev.revision_id@
    &&& byte_seqs(rev2.parent_ids@) == byte_seqs(rev.parent_ids@)
    &&& opt_text(rev2.committer) == opt_text(rev.committer)
    &&& rev2.message@ == escape_invalid(rev.message@)
    &&& rev2.properties.map() == entries_map(read_back_entries(rev.properties.entries()))
    &&& opt_bytes(rev2.inventory_sha1) == opt_bytes(rev.inventory_sha1)
    &&& rev2.timestamp@ == rev.timestamp@
    &&& rev2.timezone == rev.timezone
}

proof fn lemma_element_children(children: Seq<XmlNode>, i: int)
    requires
        0 <= i <= children.len(),
    ensures
        parents_ok_from(children, i) <==> forall|j: int|
            0 <= j < element_children_from(children, i).len() ==> attribute(
                #[trigger] element_children_from(children, i)[j],
                "revision_id"@,
            ) is Some,
        parent_ids_from(children, i) == Seq::new(
            element_children_from(children, i).len(),
            |j: int| encode_utf8(attribute(element_children_from(children, i)[j], "revision_id"@)->0),
        ),
    decreases children.len() - i,
{
    let ec = element_children_from(children, i);
    if i < children.len() {
        lemma_element_children(children, i + 1);
        let rest = element_children_from(children, i + 1);
        match children[i] {
            XmlNode::Element(c) => {
                assert(ec == seq![c] + rest);
                assert(ec[0] == c);
                assert forall|j: int| 0 < j < ec.len() implies ec[j] == rest[j - 1] by {}
                if parents_ok_from(children, i) {
                    assert forall|j: int| 0 <= j < ec.len() implies attribute(#[trigger] ec[j], "revision_id"@) is Some by {
                        if j > 0 {
                            assert(ec[j] == rest[j - 1]);
                        }
                    }
                }
                if forall|j: int| 0 <= j < ec.len() ==> attribute(#[trigger] ec[j], "revision_id"@) is Some {
                    assert(attribute(ec[0], "revision_id"@) is Some);
                    assert forall|j: int| 0 <= j < rest.len() implies attribute(#[trigger] rest[j], "revision_id"@) is Some by {
                        assert(rest[j] == ec[j + 1]);
                    }
                }
                assert(parent_ids_from(children, i) =~= Seq::new(
                    ec.len(),
                    |j: int| encode_utf8(attribute(ec[j], "revision_id"@)->0),
                ));
            },
            XmlNode::Other(_) => {},
        }
    } else {
        assert(parent_ids_from(children, i) =~= Seq::new(
            ec.len(),
            |j: int| encode_utf8(attribute(ec[j], "revision_id"@)->0),
        ));
    }
}

proof fn lemma_parents_read_back(doc: XmlElement, ps: Seq<Seq<u8>>)
    requires
        parents_read(child(doc, "parents"@), ps),
        forall|i: int| 0 <= i < ps.len() ==> valid_utf8(#[trigger] ps[i]) && utf8_pattern_found(ps[i]),
    ensures
        parents_ok(doc),
        parent_ids(doc) == ps,
{
    broadcast use vstd::utf8::group_utf8_lib;

    match child(doc, "parents"@) {
        None => {
            assert(ps.len() == 0);
            assert(parent_ids(doc) =~= ps);
        },
        Some(p) => {
            lemma_element_children(p.children@, 0);
            let ec = element_children_from(p.children@, 0);
            assert forall|j: int| 0 <= j < ps.len() implies attribute(#[trigger] ec[j], "revision_id"@)
                == Some(decode_utf8(ps[j])) by {
                assert(valid_utf8(ps[j]));
                assert(utf8_pattern_found(ps[j]));
                lemma_escape_bytes_roundtrip(ps[j]);
            }
            assert forall|j: int| 0 <= j < ec.len() implies attribute(#[trigger] ec[j], "revision_id"@) is Some by {
                assert(attribute(ec[j], "revision_id"@) == Some(decode_utf8(ps[j])));
            }
            assert forall|j: int| 0 <= j < ps.len() implies #[trigger] parent_ids(doc)[j] == ps[j] by {
                assert(attribute(ec[j], "revision_id"@) == Some(decode_utf8(ps[j])));
                assert(encode_utf8(decode_utf8(ps[j])) == ps[j]);
            }
            assert(parent_ids(doc) =~= ps);
        },
    }
}

proof fn lemma_properties_upto_read(
    children: Seq<XmlNode>,
    es: Seq<(Seq<char>, Seq<u8>)>,
    k: int,
)
    requires
        children.len() == es.len(),
        keys_sorted(es),
        forall|i: int|
            #![trigger children[i]]
            0 <= i < es.len() ==> (children[i] matches XmlNode::Element(c) && c.name@ == "property"@
                && attribute(c, "name"@) == Some(es[i].0) && property_value(c) == es[i].1),
        0 <= k <= es.len(),
    ensures
        properties_upto(children, k) == Ok::<Map<Seq<char>, Seq<u8>>, ErrorView>(
            entries_map(es.take(k)),
        ),
    decreases k,
{
    if k == 0 {
        let e0 = es.take(0);
        assert(e0 =~= Seq::<(Seq<char>, Seq<u8>)>::empty());
        assert(entries_map(e0) =~= Map::<Seq<char>, Seq<u8>>::empty());
    } else {
        lemma_properties_upto_read(children, es, k - 1);
        let t = es.take(k);
        assert(t =~= es.take(k - 1).push(es[k - 1]));
        assert forall|a: int, b: int| 0 <= a < b < t.len() implies crate::revision::key_lt(
            #[trigger] t[a].0,
            #[trigger] t[b].0,
        ) by {
            assert(t[a] == es[a] && t[b] == es[b]);
        }
        lemma_entries_map_push(es.take(k - 1), es[k - 1]);
        assert(children[k - 1] matches XmlNode::Element(c) && c.name@ == "property"@);
    }
}

proof fn lemma_properties_read_back(doc: XmlElement, es: Seq<(Seq<char>, Seq<u8>)>)
    requires
        properties_read(child(doc, "properties"@), es),
        keys_sorted(es),
        forall|i: int| 0 <= i < es.len() ==> (#[trigger] es[i]).1.len() > 0 ==> valid_utf8(es[i].1),
        forall|i: int| 0 <= i < es.len() ==> property_escapes_found(#[trigger] es[i]),
    ensures
        properties_of(doc) == Ok::<Map<Seq<char>, Seq<u8>>, ErrorView>(
            entries_map(read_back_entries(es)),
        ),
{
    let rb = read_back_entries(es);
    match child(doc, "properties"@) {
        None => {
            assert(es.len() == 0);
            assert(rb =~= Seq::<(Seq<char>, Seq<u8>)>::empty());
            assert(entries_map(rb) =~= Map::<Seq<char>, Seq<u8>>::empty());
        },
        Some(p) => {
            let children = p.children@;
            assert forall|i: int|
                #![trigger children[i]]
                0 <= i < rb.len() implies (children[i] matches XmlNode::Element(c) && c.name@
                    == "property"@ && attribute(c, "name"@) == Some(rb[i].0) && property_value(c)
                    == rb[i].1) by {
                assert(property_read(children[i], es[i]));
                let c = children[i]->Element_0;
                lemma_escape_string_roundtrip(es[i].0);
                let v = es[i].1;
                if v.len() > 0 {
                    assert(valid_utf8(v));
                    lemma_escape_string_roundtrip(escape_invalid(decode_utf8(v)));
                    if c.text is None {
                        assert(escape_invalid(decode_utf8(v)) =~= Seq::<char>::empty());
                        assert(encode_utf8(Seq::<char>::empty()) =~= Seq::<u8>::empty());
                    }
                } else {
                    assert(unescape(Seq::<char>::empty()) =~= Seq::<char>::empty());
                    assert(encode_utf8(Seq::<char>::empty()) =~= Seq::<u8>::empty());
                }
            }
            assert forall|a: int, b: int| 0 <= a < b < rb.len() implies crate::revision::key_lt(
                #[trigger] rb[a].0,
                #[trigger] rb[b].0,
            ) by {
                assert(crate::revision::key_lt(es[a].0, es[b].0));
            }
            lemma_properties_upto_read(children, rb, rb.len() as int);
            assert(rb.take(rb.len() as int) =~= rb);
        },
    }
}

/// What a read gives back of a write: an element that is what an XML
/// reader makes of the text written for a revision reads without error as
/// that revision, but that characters XML cannot carry in the message and
/// the property values come back as their `\x` escapes. The facts about
/// the regex matches that it needs are those that writing the revision
/// ensures (`escapes_found`); the format must hold no `&` (as format
/// numbers do not).
pub proof fn lemma_read_written_revision(format: Seq<char>, rev: Revision, doc: XmlElement)
    requires
        writable(rev),
        keys_sorted(rev.properties.entries()),
        forall|i: int| 0 <= i < format.len() ==> format[i] != '&',
        escapes_found(rev),
        reads_as(doc, format, rev),
    ensures
        !unpack_breaks(doc, format),
        unpack_error(doc, format) is None,
        forall|rev2: Revision| #[trigger] unpacked(doc, rev2) ==> read_back(rev, rev2),
{
    broadcast use vstd::utf8::group_utf8_lib;

    lemma_unescape_plain(format);
    lemma_timestamp_plain(rev.timestamp@);
    lemma_timestamp_is_float(rev.timestamp@);
    lemma_unescape_plain(rev.timestamp@);
    lemma_escape_bytes_roundtrip(rev.revision_id@);
    if let Some(c) = rev.committer {
        lemma_escape_string_roundtrip(c@);
    }
    if let Some(i) = rev.inventory_sha1 {
        lemma_escape_bytes_roundtrip(i@);
    }
    if let Some(z) = rev.timezone {
        lemma_decimal_signed_parses(z);
        let d = decimal_signed(z as int);
        assert forall|i: int| 0 <= i < d.len() implies d[i] != '&' by {
            assert(('0' <= d[i] <= '9') || (i == 0 && d[i] == '-'));
        }
        lemma_unescape_plain(d);
    }
    lemma_escape_string_roundtrip(escape_invalid(rev.message@));
    let ps = byte_seqs(rev.parent_ids@);
    assert forall|i: int| 0 <= i < ps.len() implies valid_utf8(#[trigger] ps[i]) && utf8_pattern_found(
        ps[i],
    ) by {
        assert(ps[i] == rev.parent_ids@[i]@);
        assert(valid_utf8(rev.parent_ids@[i]@));
        assert(utf8_pattern_found(rev.parent_ids@[i]@));
    }
    lemma_parents_read_back(doc, ps);
    let es = rev.properties.entries();
    assert forall|i: int| 0 <= i < es.len() && (#[trigger] es[i]).1.len() > 0 implies valid_utf8(
        es[i].1,
    ) by {}
    lemma_properties_read_back(doc, es);
    assert(message_of(doc) == escape_invalid(rev.message@));
    assert forall|rev2: Revision| #[trigger] unpacked(doc, rev2) implies read_back(rev, rev2) by {
        assert(encode_utf8(decode_utf8(rev.revision_id@)) == rev.revision_id@);
        if let Some(i) = rev.inventory_sha1 {
            assert(encode_utf8(decode_utf8(i@)) == i@);
        }
    }
}

/// Whether the optional text `o` of a parsed element is what an XML reader
/// makes of the written text `w`.
pub open spec fn view_text_reads(o: Option<Seq<char>>, w: Seq<char>) -> bool {
    match o {
        Some(t) => t == unescape(w),
        None => unescape(w).len() == 0,
    }
}

/// `parents_read` on what a parsed element holds.
pub open spec fn view_parents_read(parents: Option<ElementView>, ps: Seq<Seq<u8>>) -> bool {
    if ps.len() == 0 {
        parents is None
    } else {
        parents matches Some(p) && view_element_children_from(p.children, 0).len() == ps.len()
            && forall|i: int|
            0 <= i < ps.len() ==> (#[trigger] view_element_children_from(p.children, 0)[i]).attributes.get(
                "revision_id"@,
            ) == Some(unescape(escape_bytes(ps[i])))
    }
}

/// `property_read` on what a parsed node holds.
pub open spec fn view_property_read(n: NodeView, e: (Seq<char>, Seq<u8>)) -> bool {
    &&& n matches NodeView::Element(c)
    &&& c.name == "property"@
    &&& c.attributes.get("name"@) == Some(unescape(escape_string(e.0)))
    &&& view_text_reads(c.text, property_text(e.1))
}

/// `properties_read` on what a parsed element holds.
pub open spec fn view_properties_read(props: Option<ElementView>, es: Seq<(Seq<char>, Seq<u8>)>) -> bool {
    if es.len() == 0 {
        props is None
    } else {
        props matches Some(p) && p.children.len() == es.len() && forall|i: int|
            0 <= i < es.len() ==> view_property_read(#[trigger] p.children[i], es[i])
    }
}

/// Whether the parsed root `v` is what an XML reader makes of
/// `revision_xml(format, rev)`: `reads_as` on what the element holds.
pub open spec fn view_reads_as(v: ElementView, format: Seq<char>, rev: Revision) -> bool {
    &&& v.name == "revision"@
    &&& v.attributes.get("format"@) == Some(unescape(format))
    &&& v.attributes.get("committer"@) == match rev.committer {
        Some(c) => Some(unescape(escape_string(c@))),
        None => None,
    }
    &&& v.attributes.get("inventory_sha1"@) == match rev.inventory_sha1 {
        Some(i) => Some(unescape(escape_bytes(i@))),
        None => None,
    }
    &&& v.attributes.get("revision_id"@) == Some(unescape(escape_bytes(rev.revision_id@)))
    &&& v.attributes.get("timestamp"@) == Some(unescape(rev.timestamp@))
    &&& v.attributes.get("timezone"@) == match rev.timezone {
        Some(z) => Some(unescape(decimal_signed(z as int))),
        None => None,
    }
    &&& view_child(v, "message"@) matches Some(m) && view_text_reads(
        m.text,
        escape_string(escape_invalid(rev.message@)),
    )
    &&& view_parents_read(view_child(v, "parents"@), byte_seqs(rev.parent_ids@))
    &&& view_properties_read(view_child(v, "properties"@), rev.properties.entries())
}

/// A model that holds what a parsed root holds reads as the revision that
/// the root reads as.
proof fn lemma_view_reads_as(doc: XmlElement, v: ElementView, format: Seq<char>, rev: Revision)
    requires
        model_matches(doc, v),
        view_reads_as(v, format, rev),
    ensures
        reads_as(doc, format, rev),
{
    assert(attribute(doc, "format"@) == v.attributes.get("format"@));
    assert(attribute(doc, "committer"@) == v.attributes.get("committer"@));
    assert(attribute(doc, "inventory_sha1"@) == v.attributes.get("inventory_sha1"@));
    assert(attribute(doc, "revision_id"@) == v.attributes.get("revision_id"@));
    assert(attribute(doc, "timestamp"@) == v.attributes.get("timestamp"@));
    assert(attribute(doc, "timezone"@) == v.attributes.get("timezone"@));
    lemma_child_matches(doc, v, "message"@, 0);
    lemma_child_matches(doc, v, "parents"@, 0);
    lemma_child_matches(doc, v, "properties"@, 0);
    let m = child(doc, "message"@)->0;
    assert(model_matches(m, view_child(v, "message"@)->0));
    assert(text_of(m.text) == view_child(v, "message"@)->0.text);
    let ps = byte_seqs(rev.parent_ids@);
    if ps.len() > 0 {
        let p = child(doc, "parents"@)->0;
        let pv = view_child(v, "parents"@)->0;
        lemma_element_children_match(p, pv, 0);
        let ec = element_children_from(p.children@, 0);
        let vc = view_element_children_from(pv.children, 0);
        assert forall|i: int| 0 <= i < ps.len() implies attribute(#[trigger] ec[i], "revision_id"@)
            == Some(unescape(escape_bytes(ps[i]))) by {
            assert(model_matches(ec[i], vc[i]));
            assert(attribute(ec[i], "revision_id"@) == vc[i].attributes.get("revision_id"@));
        }
    }
    let es = rev.properties.entries();
    if es.len() > 0 {
        let p = child(doc, "properties"@)->0;
        let pv = view_child(v, "properties"@)->0;
        assert forall|i: int| 0 <= i < es.len() implies property_read(#[trigger] p.children@[i], es[i]) by {
            assert(view_property_read(pv.children[i], es[i]));
            assert(node_matches(p.children@[i], pv.children[i]));
            let c = p.children@[i]->Element_0;
            let cv = pv.children[i]->Element_0;
            assert(model_matches(c, cv));
            assert(attribute(c, "name"@) == cv.attributes.get("name"@));
            assert(text_of(c.text) == cv.text);
        }
    }
}

/// What a read of written text gives back: where the XML text that writing
/// `rev` produced is well-formed and its root is read as it was written
/// (`view_reads_as`, how `xmltree` parses, which is named), reading that
/// text gives a revision that holds what `rev` held, but that characters
/// XML cannot carry in the message and the property values come back as
/// their `\x` escapes.
pub proof fn lemma_read_after_write(
    text: Seq<u8>,
    format: Seq<char>,
    rev: Revision,
    res: Option<Result<Revision, Error>>,
)
    requires
        writable(rev),
        keys_sorted(rev.properties.entries()),
        forall|i: int| 0 <= i < format.len() ==> format[i] != '&',
        escapes_found(rev),
        xml_well_formed(text),
        view_reads_as(xml_root_view(text), format, rev),
        read_outcome(text, format, res),
    ensures
        res matches Some(r) && (r matches Ok(rev2) && read_back(rev, rev2)),
{
    let doc = choose|doc: XmlElement|
        #[trigger] model_matches(doc, xml_root_view(text)) && (res is None <==> unpack_breaks(
            doc,
            format,
        )) && (res matches Some(r) ==> unpack_outcome(doc, format, r));
    lemma_view_reads_as(doc, xml_root_view(text), format, rev);
    lemma_read_written_revision(format, rev, doc);
}

} // verus!
