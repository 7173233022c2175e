use breezy::revision::{is_reserved, key_less, Error, Properties, Revision};
use breezy::xml::{XmlElement, XmlNode};
use breezy::xml_serializer::{
    unpack_revision_checked, unpack_revision_properties, unpack_would_break,
    XMLRevisionSerializer, XMLRevisionSerializer5, XMLRevisionSerializer8,
};

fn sample_revision() -> Revision {
    let mut props = Properties::new();
    props.insert("empty".to_string(), Vec::new());
    props.insert("branch-nick".to_string(), b"trunk".to_vec());
    Revision::new(
        b"rev-1".to_vec(),
        vec![b"p1".to_vec(), b"p2".to_vec()],
        Some("Jelmer <j@e.org>".to_string()),
        "Hello\u{0} & bye".to_string(),
        props,
        Some(b"abc".to_vec()),
        "1234567890.123".to_string(),
        Some(-3600),
    )
}

const SAMPLE_XML: &str = "<revision committer=\"Jelmer &lt;j@e.org&gt;\" format=\"8\" inventory_sha1=\"abc\" revision_id=\"rev-1\" timestamp=\"1234567890.123\" timezone=\"-3600\">\n\
<message>Hello\\x00 &amp; bye</message>\n\
<parents>\n\
<revision_ref revision_id=\"p1\" />\n\
<revision_ref revision_id=\"p2\" />\n\
</parents>\n\
<properties><property name=\"branch-nick\">trunk</property>\n\
<property name=\"empty\" />\n\
</properties>\n\
</revision>\n";

#[test]
fn write_revision_to_string_format_8() {
    let out = XMLRevisionSerializer8.write_revision_to_string(&sample_revision());
    match out {
        Ok(bytes) => assert_eq!(String::from_utf8(bytes).unwrap(), SAMPLE_XML),
        Err(_) => panic!("writing failed"),
    }
}

#[test]
fn write_minimal_revision_format_5() {
    let rev = Revision::new(
        b"r\xc3\xa9v".to_vec(),
        Vec::new(),
        None,
        String::new(),
        Properties::new(),
        None,
        "0.000".to_string(),
        None,
    );
    let bytes = match XMLRevisionSerializer5.write_revision_to_string(&rev) {
        Ok(b) => b,
        Err(_) => panic!("writing failed"),
    };
    assert_eq!(
        String::from_utf8(bytes).unwrap(),
        "<revision format=\"5\" revision_id=\"r&#233;v\" timestamp=\"0.000\">\n<message></message>\n</revision>\n"
    );
}

#[test]
fn write_revision_to_lines_splits_the_text() {
    let lines = XMLRevisionSerializer8.write_revision_to_lines(&sample_revision());
    assert_eq!(lines.len(), 10);
    assert_eq!(lines.concat(), SAMPLE_XML.as_bytes().to_vec());
    assert!(lines.iter().all(|l| l.ends_with(b"\n")));
    assert_eq!(lines[1], b"<message>Hello\\x00 &amp; bye</message>\n".to_vec());
}

#[test]
fn format_names() {
    assert_eq!(XMLRevisionSerializer8.format_num(), "8");
    assert_eq!(XMLRevisionSerializer8.format_name(), "8");
    assert_eq!(XMLRevisionSerializer5.format_name(), "5");
    assert!(XMLRevisionSerializer8.squashes_xml_invalid_characters());
}

fn text(s: &str) -> XmlNode {
    XmlNode::Other(format!("Text({:?})", s))
}

fn elem(name: &str, attrs: &[(&str, &str)], children: Vec<XmlNode>, text: Option<&str>) -> XmlElement {
    XmlElement {
        name: name.to_string(),
        attributes: attrs.iter().map(|(k, v)| (k.to_string(), v.to_string())).collect(),
        children,
        text: text.map(|t| t.to_string()),
        repr: format!("Element {{ name: {:?} }}", name),
    }
}

fn sample_document(format: &str) -> XmlElement {
    let parents = elem(
        "parents",
        &[],
        vec![
            XmlNode::Element(elem("revision_ref", &[("revision_id", "p1")], vec![], None)),
            text("\n"),
            XmlNode::Element(elem("revision_ref", &[("revision_id", "p2")], vec![], None)),
        ],
        Some("\n"),
    );
    let message = elem("message", &[], vec![text("Hello & bye")], Some("Hello & bye"));
    let properties = elem(
        "properties",
        &[],
        vec![
            XmlNode::Element(elem("property", &[("name", "x")], vec![], Some("one"))),
            XmlNode::Element(elem("property", &[("name", "e")], vec![], None)),
            XmlNode::Element(elem("property", &[("name", "x")], vec![], Some("two"))),
        ],
        None,
    );
    elem(
        "revision",
        &[
            ("committer", "Jelmer"),
            ("format", format),
            ("inventory_sha1", "abc"),
            ("revision_id", "rev-1"),
            ("timestamp", "1234567890.123"),
            ("timezone", "-3600"),
        ],
        vec![
            XmlNode::Element(message),
            XmlNode::Element(parents),
            XmlNode::Element(properties),
        ],
        None,
    )
}

#[test]
fn unpack_revision_reads_all_parts() {
    let rev = match XMLRevisionSerializer8.unpack_revision(&sample_document("8")) {
        Ok(r) => r,
        Err(_) => panic!("reading failed"),
    };
    assert_eq!(rev.revision_id, b"rev-1".to_vec());
    assert_eq!(rev.parent_ids, vec![b"p1".to_vec(), b"p2".to_vec()]);
    assert_eq!(rev.committer, Some("Jelmer".to_string()));
    assert_eq!(rev.message, "Hello & bye");
    assert_eq!(rev.inventory_sha1, Some(b"abc".to_vec()));
    assert_eq!(rev.timestamp, "1234567890.123");
    assert_eq!(rev.timezone, Some(-3600));
    assert_eq!(rev.properties.len(), 2);
    let (k0, v0) = rev.properties.entry(0);
    let (k1, v1) = rev.properties.entry(1);
    assert_eq!((k0.as_str(), v0.as_slice()), ("e", &b""[..]));
    assert_eq!((k1.as_str(), v1.as_slice()), ("x", &b"two"[..]));
}

#[test]
fn unpack_revision_without_optional_parts() {
    let doc = elem(
        "revision",
        &[("revision_id", "r"), ("timestamp", "1.5")],
        vec![],
        None,
    );
    let rev = match XMLRevisionSerializer5.unpack_revision(&doc) {
        Ok(r) => r,
        Err(_) => panic!("reading failed"),
    };
    assert!(rev.parent_ids.is_empty());
    assert_eq!(rev.committer, None);
    assert_eq!(rev.message, "");
    assert!(rev.properties.is_empty());
    assert_eq!(rev.inventory_sha1, None);
    assert_eq!(rev.timezone, None);
}

fn expect_error(res: Result<Revision, Error>) -> Error {
    match res {
        Ok(_) => panic!("expected an error"),
        Err(e) => e,
    }
}

#[test]
fn unpack_revision_errors() {
    match expect_error(XMLRevisionSerializer8.unpack_revision(&elem("inventory", &[], vec![], None))) {
        Error::DecodeError(m) => assert_eq!(m, "expected revision element, got inventory"),
        _ => panic!("wrong error"),
    }
    match expect_error(XMLRevisionSerializer5.unpack_revision(&sample_document("8"))) {
        Error::DecodeError(m) => assert_eq!(m, "invalid format version 8 on revision"),
        _ => panic!("wrong error"),
    }
    let no_id = elem("revision", &[("timestamp", "1")], vec![], None);
    match expect_error(XMLRevisionSerializer8.unpack_revision(&no_id)) {
        Error::EncodeError(m) => assert_eq!(m, "revision element missing revision_id attribute"),
        _ => panic!("wrong error"),
    }
    let no_ts = elem("revision", &[("revision_id", "r")], vec![], None);
    match expect_error(XMLRevisionSerializer8.unpack_revision(&no_ts)) {
        Error::EncodeError(m) => assert_eq!(m, "revision element missing timestamp attribute"),
        _ => panic!("wrong error"),
    }
}

#[test]
fn unpack_revision_properties_errors() {
    let bad_node = elem("revision", &[], vec![XmlNode::Element(elem("properties", &[], vec![text("x")], Some("x")))], None);
    match unpack_revision_properties(&bad_node) {
        Err(Error::DecodeError(m)) => assert_eq!(m, "bad tag under properties list: Text(\"x\")"),
        _ => panic!("expected an error"),
    }
    let bad_tag = elem(
        "revision",
        &[],
        vec![XmlNode::Element(elem("properties", &[], vec![XmlNode::Element(elem("prop", &[], vec![], None))], None))],
        None,
    );
    match unpack_revision_properties(&bad_tag) {
        Err(Error::DecodeError(m)) => assert_eq!(m, "bad tag under properties list: Element { name: \"prop\" }"),
        _ => panic!("expected an error"),
    }
    let no_name = elem(
        "revision",
        &[],
        vec![XmlNode::Element(elem("properties", &[], vec![XmlNode::Element(elem("property", &[], vec![], None))], None))],
        None,
    );
    match unpack_revision_properties(&no_name) {
        Err(Error::DecodeError(m)) => assert_eq!(m, "property element missing name attribute"),
        _ => panic!("expected an error"),
    }
    match unpack_revision_properties(&elem("revision", &[], vec![], None)) {
        Ok(p) => assert!(p.is_empty()),
        Err(_) => panic!("expected no properties"),
    }
}

#[test]
fn properties_stay_sorted_and_unique() {
    let mut p = Properties::new();
    for (k, v) in [("b", "1"), ("a", "2"), ("c", "3"), ("b", "4"), ("é", "5"), ("B", "6")] {
        p.insert(k.to_string(), v.as_bytes().to_vec());
    }
    let got: Vec<(String, Vec<u8>)> = (0..p.len())
        .map(|i| {
            let (k, v) = p.entry(i);
            (k.clone(), v.clone())
        })
        .collect();
    let want: Vec<(String, Vec<u8>)> = [("B", "6"), ("a", "2"), ("b", "4"), ("c", "3"), ("é", "5")]
        .iter()
        .map(|(k, v)| (k.to_string(), v.as_bytes().to_vec()))
        .collect();
    assert_eq!(got, want);
}

#[test]
fn key_order_is_string_order() {
    for (a, b) in [("a", "b"), ("a", "ab"), ("", "a"), ("Z", "a"), ("z", "é"), ("ab", "a"), ("x", "x")] {
        assert_eq!(key_less(&a.to_string(), &b.to_string()), a < b, "{:?} {:?}", a, b);
    }
}

#[test]
fn reserved_revision_ids() {
    assert!(is_reserved(b"null:"));
    assert!(is_reserved(b"current:"));
    assert!(!is_reserved(b"rev-1"));
    assert!(!is_reserved(b""));
}

fn read_ok(serializer: &dyn Fn(&[u8]) -> Option<Result<Revision, Error>>, text: &[u8]) -> Revision {
    match serializer(text) {
        Some(Ok(r)) => r,
        Some(Err(_)) => panic!("reading failed"),
        None => panic!("reading stopped"),
    }
}

#[test]
fn read_revision_from_string_reads_written_text() {
    let read = |t: &[u8]| XMLRevisionSerializer8.read_revision_from_string(t);
    let rev = read_ok(&read, SAMPLE_XML.as_bytes());
    assert_eq!(rev.revision_id, b"rev-1".to_vec());
    assert_eq!(rev.parent_ids, vec![b"p1".to_vec(), b"p2".to_vec()]);
    assert_eq!(rev.committer, Some("Jelmer <j@e.org>".to_string()));
    assert_eq!(rev.message, "Hello\\x00 & bye");
    assert_eq!(rev.inventory_sha1, Some(b"abc".to_vec()));
    assert_eq!(rev.timestamp, "1234567890.123");
    assert_eq!(rev.timezone, Some(-3600));
    assert_eq!(rev.properties.len(), 2);
    let (k0, v0) = rev.properties.entry(0);
    let (k1, v1) = rev.properties.entry(1);
    assert_eq!((k0.as_str(), v0.as_slice()), ("branch-nick", &b"trunk"[..]));
    assert_eq!((k1.as_str(), v1.as_slice()), ("empty", &b""[..]));
}

#[test]
fn read_revision_from_string_decodes_references() {
    let text = "<revision format=\"5\" revision_id=\"r&#233;v\" timestamp=\"0.000\">\n<message>a &lt;b&gt; &#8364;</message>\n</revision>\n";
    let read = |t: &[u8]| XMLRevisionSerializer5.read_revision_from_string(t);
    let rev = read_ok(&read, text.as_bytes());
    assert_eq!(rev.revision_id, "r\u{e9}v".as_bytes().to_vec());
    assert_eq!(rev.message, "a <b> \u{20ac}");
    assert!(rev.parent_ids.is_empty());
    assert!(rev.properties.is_empty());
}

#[test]
fn read_revision_from_string_errors() {
    match XMLRevisionSerializer8.read_revision_from_string(b"<revision") {
        Some(Err(Error::DecodeError(m))) => assert!(m.starts_with("XML parse error: "), "{}", m),
        _ => panic!("expected a parse error"),
    }
    match XMLRevisionSerializer8.read_revision_from_string(b"<inventory />") {
        Some(Err(Error::DecodeError(m))) => assert_eq!(m, "expected revision element, got inventory"),
        _ => panic!("expected a decode error"),
    }
    match XMLRevisionSerializer5.read_revision_from_string(SAMPLE_XML.as_bytes()) {
        Some(Err(Error::DecodeError(m))) => assert_eq!(m, "invalid format version 8 on revision"),
        _ => panic!("expected a decode error"),
    }
    let bad_prop = b"<revision revision_id=\"r\" timestamp=\"1\"><properties>text</properties></revision>";
    match XMLRevisionSerializer8.read_revision_from_string(bad_prop) {
        Some(Err(Error::DecodeError(m))) => assert_eq!(m, "bad tag under properties list: Text(\"text\")"),
        _ => panic!("expected a decode error"),
    }
}

#[test]
fn read_revision_from_string_stops_on_malformed_parts() {
    let no_parent_id = b"<revision revision_id=\"r\" timestamp=\"1\"><parents><revision_ref /></parents></revision>";
    assert!(XMLRevisionSerializer8.read_revision_from_string(no_parent_id).is_none());
    let bad_zone = b"<revision revision_id=\"r\" timestamp=\"1\" timezone=\"east\" />";
    assert!(XMLRevisionSerializer8.read_revision_from_string(bad_zone).is_none());
    let wrong_name = b"<inventory timezone=\"east\" />";
    assert!(XMLRevisionSerializer8.read_revision_from_string(wrong_name).is_some());
}

#[test]
fn unpack_checked_stops_where_reading_breaks() {
    let broken = elem(
        "revision",
        &[("revision_id", "r"), ("timestamp", "1")],
        vec![XmlNode::Element(elem("parents", &[], vec![XmlNode::Element(elem("revision_ref", &[], vec![], None))], None))],
        None,
    );
    assert!(unpack_would_break("8", &broken));
    assert!(unpack_revision_checked("8", &broken).is_none());
    let other_format = elem("revision", &[("format", "5"), ("timezone", "x")], vec![], None);
    assert!(!unpack_would_break("8", &other_format));
    match unpack_revision_checked("8", &other_format) {
        Some(Err(Error::DecodeError(m))) => assert_eq!(m, "invalid format version 5 on revision"),
        _ => panic!("expected a decode error"),
    }
    let zone = elem("revision", &[("revision_id", "r"), ("timestamp", "1"), ("timezone", "+60")], vec![], None);
    match unpack_revision_checked("8", &zone) {
        Some(Ok(rev)) => assert_eq!(rev.timezone, Some(60)),
        _ => panic!("expected a revision"),
    }
}

#[test]
fn written_revision_reads_back() {
    for (committer, zone) in [("a<b>&'\"c", -2147483648), ("caf\u{e9} \u{4e2d}", 0), ("x\u{1f600}y", 19800)] {
        let mut props = Properties::new();
        props.insert("n&me".to_string(), "v\u{e9}l<ue>\u{1}".as_bytes().to_vec());
        let rev = Revision::new(
            "id-\u{e9}&".as_bytes().to_vec(),
            vec![b"p<1>".to_vec()],
            Some(committer.to_string()),
            "line one\nline two \u{b}".to_string(),
            props,
            Some(b"0123abcd".to_vec()),
            "12.500".to_string(),
            Some(zone),
        );
        let text = match XMLRevisionSerializer8.write_revision_to_string(&rev) {
            Ok(t) => t,
            Err(_) => panic!("writing failed"),
        };
        let back = match XMLRevisionSerializer8.read_revision_from_string(&text) {
            Some(Ok(r)) => r,
            _ => panic!("reading failed"),
        };
        assert_eq!(back.revision_id, rev.revision_id);
        assert_eq!(back.parent_ids, rev.parent_ids);
        assert_eq!(back.committer, rev.committer);
        assert_eq!(back.message, "line one\nline two \\x0b");
        assert_eq!(back.inventory_sha1, rev.inventory_sha1);
        assert_eq!(back.timestamp, rev.timestamp);
        assert_eq!(back.timezone, Some(zone));
        assert_eq!(back.properties.len(), 1);
        let (k, v) = back.properties.entry(0);
        assert_eq!(k.as_str(), "n&me");
        assert_eq!(v.as_slice(), "v\u{e9}l<ue>\\x01".as_bytes());
    }
}

#[test]
fn reading_stops_on_a_timestamp_that_is_not_a_float() {
    let bad = b"<revision revision_id=\"r\" timestamp=\"yesterday\" />";
    assert!(XMLRevisionSerializer8.read_revision_from_string(bad).is_none());
    let doc = elem("revision", &[("revision_id", "r"), ("timestamp", "1.2.3")], vec![], None);
    assert!(unpack_would_break("8", &doc));
    // Reading reports a missing revision id before it looks at the timestamp.
    let no_id = elem("revision", &[("timestamp", "x")], vec![], None);
    assert!(!unpack_would_break("8", &no_id));
    match unpack_revision_checked("8", &no_id) {
        Some(Err(Error::EncodeError(m))) => assert_eq!(m, "revision element missing revision_id attribute"),
        _ => panic!("expected the missing id"),
    }
    let ok = elem("revision", &[("revision_id", "r"), ("timestamp", "1e3")], vec![], None);
    assert!(!unpack_would_break("8", &ok));
}

#[test]
fn written_lines_are_counted_by_newlines() {
    let lines = XMLRevisionSerializer8.write_revision_to_lines(&sample_revision());
    assert_eq!(lines.len(), SAMPLE_XML.matches('\n').count());
    assert!(SAMPLE_XML.ends_with('\n'));
}
