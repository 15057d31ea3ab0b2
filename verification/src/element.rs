//! The XML element tree that conversion reads, and the shape of a node.

use vstd::prelude::*;

verus! {

/// One element of a parsed XML document.
#[derive(Debug, PartialEq, Eq)]
pub struct Element {
    /// Tag name.
    pub name: String,
    /// Text content, if the element has any.
    pub text: Option<String>,
    /// CDATA content, if the element has any.
    pub cdata: Option<String>,
    /// Attributes as (name, value) pairs, in document order.
    pub attributes: Vec<(String, String)>,
    /// Child elements, in document order.
    pub children: Vec<Element>,
}

/// The mathematical value of an [`Element`].
pub struct Node {
    pub name: Seq<char>,
    pub text: Option<Seq<char>>,
    pub cdata: Option<Seq<char>>,
    pub attributes: Seq<(Seq<char>, Seq<char>)>,
    pub children: Seq<Node>,
}

/// The node that an element stands for.
pub open spec fn node_of(e: Element) -> Node
    decreases e,
{
    Node {
        name: e.name@,
        text: match e.text {
            Some(t) => Some(t@),
            None => None,
        },
        cdata: match e.cdata {
            Some(t) => Some(t@),
            None => None,
        },
        attributes: Seq::new(
            e.attributes@.len(),
            |i: int| (e.attributes@[i].0@, e.attributes@[i].1@),
        ),
        children: Seq::new(
            e.children@.len(),
            |i: int|
                if 0 <= i < e.children@.len() {
                    node_of(e.children@[i])
                } else {
                    arbitrary()
                },
        ),
    }
}

impl View for Element {
    type V = Node;

    open spec fn view(&self) -> Node {
        node_of(*self)
    }
}

impl Clone for Element {
    /// A copy of the element, with the same model.
    fn clone(&self) -> (r: Element)
        ensures
            r@ == self@,
        decreases self,
    {
        let text = match &self.text {
            Some(t) => Some(t.clone()),
            None => None,
        };
        let cdata = match &self.cdata {
            Some(c) => Some(c.clone()),
            None => None,
        };
        let mut attributes: Vec<(String, String)> = Vec::new();
        let mut i: usize = 0;
        while i < self.attributes.len()
            invariant
                0 <= i <= self.attributes.len(),
                attributes@.len() == i,
                forall|k: int|
                    0 <= k < i ==> (#[trigger] attributes@[k]).0@ == self.attributes@[k].0@
                        && attributes@[k].1@ == self.attributes@[k].1@,
            decreases self.attributes.len() - i,
        {
            attributes.push((self.attributes[i].0.clone(), self.attributes[i].1.clone()));
            i += 1;
        }
        let mut children: Vec<Element> = Vec::new();
        let mut j: usize = 0;
        while j < self.children.len()
            invariant
                0 <= j <= self.children.len(),
                children@.len() == j,
                forall|k: int| 0 <= k < j ==> (#[trigger] children@[k])@ == self.children@[k]@,
            decreases self.children.len() - j,
        {
            children.push(self.children[j].clone());
            j += 1;
        }
        let r = Element { name: self.name.clone(), text, cdata, attributes, children };
        assert(r@.attributes =~= self@.attributes);
        assert(r@.children =~= self@.children);
        r
    }
}

/// The shape of a node, by which conversion chooses its rule.
#[derive(Clone, Copy, Debug, PartialEq, Eq)]
pub enum XMLNodeType {
    /// No children, no text, no attributes.
    Empty,
    /// Text only.
    Text,
    /// Attributes only.
    Attributes,
    /// Text and attributes, no children.
    TextAndAttributes,
    /// Children and no text.
    Parent,
    /// Children together with text.
    SemiStructured,
}

impl Node {
    /// Whether the node carries text or CDATA content.
    pub open spec fn has_text(self) -> bool {
        self.text.is_some() || self.cdata.is_some()
    }

    /// The shape of the node.
    pub open spec fn shape(self) -> XMLNodeType {
        if self.children.len() == 0 {
            if !self.has_text() {
                if self.attributes.len() == 0 {
                    XMLNodeType::Empty
                } else {
                    XMLNodeType::Attributes
                }
            } else if self.attributes.len() == 0 {
                XMLNodeType::Text
            } else {
                XMLNodeType::TextAndAttributes
            }
        } else if !self.has_text() {
            XMLNodeType::Parent
        } else {
            XMLNodeType::SemiStructured
        }
    }
}

/// Classifies a node by its children, text and attributes.
pub fn scan_xml_node(e: &Element) -> (shape: XMLNodeType)
    ensures
        shape == e@.shape(),
{
    if e.children.len() == 0 {
        if e.text.is_none() && e.cdata.is_none() {
            if e.attributes.len() == 0 {
                XMLNodeType::Empty
            } else {
                XMLNodeType::Attributes
            }
        } else if e.attributes.len() == 0 {
            XMLNodeType::Text
        } else {
            XMLNodeType::TextAndAttributes
        }
    } else if e.text.is_none() && e.cdata.is_none() {
        XMLNodeType::Parent
    } else {
        XMLNodeType::SemiStructured
    }
}

} // verus!
