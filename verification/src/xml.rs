//! A plain model of a parsed XML element: what the revision reader looks
//! at. The parsing itself is done by `xmltree`.

use vstd::prelude::*;

use crate::text::str_eq;

verus! {

/// An element as `xmltree` parses it.
#[verifier::external_type_specification]
#[verifier::external_body]
pub struct ExElement(xmltree::Element);

/// Why `xmltree` could not parse a document.
#[verifier::external_type_specification]
#[verifier::external_body]
pub struct ExParseError(xmltree::ParseError);

/// What a parsed node holds: an element, or another node (text, CDATA,
/// comment, processing instruction) with its debug rendering.
pub enum NodeView {
    Element(ElementView),
    Other(Seq<char>),
}

/// What a parsed element holds, whatever the order in which its attributes
/// are walked: its name, its attributes as a map, its child nodes, and the
/// concatenation of its text and CDATA children (`None` when it has none).
pub struct ElementView {
    pub name: Seq<char>,
    pub attributes: Map<Seq<char>, Seq<char>>,
    pub children: Seq<NodeView>,
    pub text: Option<Seq<char>>,
}

/// Whether the bytes `text` are a document that `xmltree::Element::parse`
/// accepts.
pub uninterp spec fn xml_well_formed(text: Seq<u8>) -> bool;

/// What the root element that `xmltree::Element::parse` finds in `text`
/// holds.
pub uninterp spec fn xml_root_view(text: Seq<u8>) -> ElementView;

/// What an `xmltree::Element` holds.
pub uninterp spec fn element_view(e: xmltree::Element) -> ElementView;

/// The `Display` text of the error that `xmltree::Element::parse` gives
/// for `text`.
pub uninterp spec fn xml_error_text(text: Seq<u8>) -> Seq<char>;

/// The `Display` text of an `xmltree::ParseError`.
pub uninterp spec fn parse_error_display(e: xmltree::ParseError) -> Seq<char>;

/// The text held by an optional `String`.
pub open spec fn text_of(o: Option<String>) -> Option<Seq<char>> {
    match o {
        Some(t) => Some(t@),
        None => None,
    }
}

/// Whether the model `e` holds what `v` describes: the same name, the same
/// value for each attribute name, the same text, and child nodes that match
/// one for one. The debug rendering of `e` itself is left free.
pub open spec fn model_matches(e: XmlElement, v: ElementView) -> bool
    decreases e,
{
    &&& e.name@ == v.name
    &&& forall|k: Seq<char>| #[trigger] attribute(e, k) == v.attributes.get(k)
    &&& text_of(e.text) == v.text
    &&& e.children@.len() == v.children.len()
    &&& forall|i: int|
        0 <= i < v.children.len() ==> node_matches(#[trigger] e.children@[i], v.children[i])
}

/// Whether the model node `n` holds what `v` describes.
pub open spec fn node_matches(n: XmlNode, v: NodeView) -> bool
    decreases n,
{
    match n {
        XmlNode::Element(c) => match v {
            NodeView::Element(cv) => model_matches(c, cv),
            NodeView::Other(_) => false,
        },
        XmlNode::Other(r) => match v {
            NodeView::Element(_) => false,
            NodeView::Other(rv) => r@ == rv,
        },
    }
}

/// `xmltree::Element::parse` on the bytes `text`: the root element of the
/// document when it is well-formed, else why it is not. The root, and the
/// text of the error, are functions of the bytes alone.
#[verifier::external_body]
pub(crate) fn parse_document(text: &[u8]) -> (res: Result<xmltree::Element, xmltree::ParseError>)
    ensures
        res is Ok <==> xml_well_formed(text@),
        res matches Ok(e) ==> element_view(e) == xml_root_view(text@),
        res matches Err(e) ==> parse_error_display(e) == xml_error_text(text@),
{
    xmltree::Element::parse(text)
}

/// The `Display` text of an `xmltree::ParseError`: `Malformed XML.` and
/// what `xml-rs` reports, or `Cannot parse`. It is named, not stated.
#[verifier::external_body]
pub(crate) fn parse_error_text(e: &xmltree::ParseError) -> (res: String)
    ensures
        res@ == parse_error_display(*e),
{
    format!("{}", e)
}

/// The plain model of an element that `xmltree` parsed: its name, its
/// attributes (in the order in which its hash map is walked), its child
/// nodes, the concatenation of its text and CDATA children
/// (`Element::get_text`), and the `Debug` renderings of the element and of
/// the children that are not elements. The contract states all of it but
/// the order of the attributes and the renderings of elements, which
/// depend on hashing.
#[verifier::external_body]
pub(crate) fn element_model(e: &xmltree::Element) -> (res: XmlElement)
    ensures
        model_matches(res, element_view(*e)),
{
    XmlElement {
        name: e.name.clone(),
        attributes: e.attributes.iter().map(|(k, v)| (k.clone(), v.clone())).collect(),
        children: e.children.iter().map(|n| match n {
            xmltree::XMLNode::Element(c) => XmlNode::Element(element_model(c)),
            other => XmlNode::Other(format!("{:?}", other)),
        }).collect(),
        text: e.get_text().map(|t| t.into_owned()),
        repr: format!("{:?}", e),
    }
}

/// A node among the children of an element.
pub enum XmlNode {
    /// A child element.
    Element(XmlElement),
    /// Any other node (text, CDATA, comment, processing instruction), with
    /// its debug rendering, which error messages quote.
    Other(String),
}

/// An XML element.
pub struct XmlElement {
    /// The element's name, without namespace.
    pub name: String,
    /// The attributes, as (name, value) pairs.
    pub attributes: Vec<(String, String)>,
    /// The child nodes, in document order.
    pub children: Vec<XmlNode>,
    /// The concatenation of the element's text and CDATA children, or `None`
    /// when it has none.
    pub text: Option<String>,
    /// The element's debug rendering, which error messages quote.
    pub repr: String,
}

/// The value of the first attribute named `name` among `attrs[i..]`.
pub open spec fn attribute_from(attrs: Seq<(String, String)>, name: Seq<char>, i: int) -> Option<
    Seq<char>,
>
    decreases attrs.len() - i,
{
    if i < 0 || i >= attrs.len() {
        None
    } else if attrs[i].0@ == name {
        Some(attrs[i].1@)
    } else {
        attribute_from(attrs, name, i + 1)
    }
}

/// The value of the attribute `name` of `e`, if it has one.
pub open spec fn attribute(e: XmlElement, name: Seq<char>) -> Option<Seq<char>> {
    attribute_from(e.attributes@, name, 0)
}

/// The first element named `name` among `children[i..]`.
pub open spec fn child_from(children: Seq<XmlNode>, name: Seq<char>, i: int) -> Option<XmlElement>
    decreases children.len() - i,
{
    if i < 0 || i >= children.len() {
        None
    } else {
        match children[i] {
            XmlNode::Element(c) => if c.name@ == name {
                Some(c)
            } else {
                child_from(children, name, i + 1)
            },
            XmlNode::Other(_) => child_from(children, name, i + 1),
        }
    }
}

/// The first child element of `e` named `name`, if any.
pub open spec fn child(e: XmlElement, name: Seq<char>) -> Option<XmlElement> {
    child_from(e.children@, name, 0)
}

impl XmlElement {
    /// The value of the attribute `name`, if the element has one.
    pub fn get_attribute(&self, name: &str) -> (res: Option<&String>)
        ensures
            match res {
                Some(v) => attribute(*self, name@) == Some(v@),
                None => attribute(*self, name@) is None,
            },
    {
        let mut i: usize = 0;
        while i < self.attributes.len()
            invariant
                i <= self.attributes@.len(),
                attribute(*self, name@) == attribute_from(self.attributes@, name@, i as int),
            decreases self.attributes@.len() - i,
        {
            let a = &self.attributes[i];
            if str_eq(a.0.as_str(), name) {
                return Some(&a.1);
            }
            i = i + 1;
        }
        None
    }

    /// The first child element named `name`, if any.
    pub fn get_child(&self, name: &str) -> (res: Option<&XmlElement>)
        ensures
            match res {
                Some(c) => child(*self, name@) == Some(*c),
                None => child(*self, name@) is None,
            },
    {
        let mut i: usize = 0;
        while i < self.children.len()
            invariant
                i <= self.children@.len(),
                child(*self, name@) == child_from(self.children@, name@, i as int),
            decreases self.children@.len() - i,
        {
            match &self.children[i] {
                XmlNode::Element(c) => {
                    if str_eq(c.name.as_str(), name) {
                        return Some(c);
                    }
                },
                XmlNode::Other(_) => {},
            }
            i = i + 1;
        }
        None
    }
}

/// The first element named `name` among `children[i..]`.
pub open spec fn view_child_from(children: Seq<NodeView>, name: Seq<char>, i: int) -> Option<ElementView>
    decreases children.len() - i,
{
    if i < 0 || i >= children.len() {
        None
    } else {
        match children[i] {
            NodeView::Element(c) => if c.name == name {
                Some(c)
            } else {
                view_child_from(children, name, i + 1)
            },
            NodeView::Other(_) => view_child_from(children, name, i + 1),
        }
    }
}

/// The first child element of `v` named `name`, if any.
pub open spec fn view_child(v: ElementView, name: Seq<char>) -> Option<ElementView> {
    view_child_from(v.children, name, 0)
}

/// The element children of `children[i..]`, in order.
pub open spec fn view_element_children_from(children: Seq<NodeView>, i: int) -> Seq<ElementView>
    decreases children.len() - i,
{
    if i < 0 || i >= children.len() {
        seq![]
    } else {
        match children[i] {
            NodeView::Element(c) => seq![c] + view_element_children_from(children, i + 1),
            NodeView::Other(_) => view_element_children_from(children, i + 1),
        }
    }
}

/// A model finds the child that its view finds, and that child matches the
/// view's.
pub proof fn lemma_child_matches(e: XmlElement, v: ElementView, name: Seq<char>, i: int)
    requires
        model_matches(e, v),
        0 <= i <= v.children.len(),
    ensures
        child_from(e.children@, name, i) is None <==> view_child_from(v.children, name, i) is None,
        child_from(e.children@, name, i) matches Some(c) ==> model_matches(
            c,
            view_child_from(v.children, name, i)->0,
        ),
    decreases v.children.len() - i,
{
    if i < v.children.len() {
        lemma_child_matches(e, v, name, i + 1);
        assert(node_matches(e.children@[i], v.children[i]));
    }
}

/// A model's element children match its view's, one for one.
pub proof fn lemma_element_children_match(e: XmlElement, v: ElementView, i: int)
    requires
        model_matches(e, v),
        0 <= i <= v.children.len(),
    ensures
        crate::xml_serializer::element_children_from(e.children@, i).len()
            == view_element_children_from(v.children, i).len(),
        forall|j: int|
            0 <= j < view_element_children_from(v.children, i).len() ==> model_matches(
                #[trigger] crate::xml_serializer::element_children_from(e.children@, i)[j],
                view_element_children_from(v.children, i)[j],
            ),
    decreases v.children.len() - i,
{
    if i < v.children.len() {
        lemma_element_children_match(e, v, i + 1);
        assert(node_matches(e.children@[i], v.children[i]));
        let me = crate::xml_serializer::element_children_from(e.children@, i);
        let ve = view_element_children_from(v.children, i);
        let me1 = crate::xml_serializer::element_children_from(e.children@, i + 1);
        let ve1 = view_element_children_from(v.children, i + 1);
        match e.children@[i] {
            XmlNode::Element(c) => {
                assert(me == seq![c] + me1);
                assert(ve == seq![v.children[i]->Element_0] + ve1);
                assert forall|j: int| 0 <= j < ve.len() implies model_matches(#[trigger] me[j], ve[j]) by {
                    if j > 0 {
                        assert(me[j] == me1[j - 1]);
                        assert(ve[j] == ve1[j - 1]);
                    }
                }
            },
            XmlNode::Other(_) => {},
        }
    }
}

} // verus!
