//! The XML element tree that the converter reads, and its shape
//! classification.

use vstd::prelude::*;

verus! {

/// Mathematical model of one XML element: the name and attribute strings as
/// character sequences, and the children as a sequence of models.
pub ghost struct ElemModel {
    pub name: Seq<char>,
    pub attrs: Seq<(Seq<char>, Seq<char>)>,
    pub text: Option<Seq<char>>,
    pub cdata: Option<Seq<char>>,
    pub children: Seq<ElemModel>,
}

/// One XML element: a name, uniquely-keyed attributes in document order,
/// optional text and CDATA content, and the child elements in order.
pub struct Element {
    pub name: String,
    pub attributes: Vec<(String, String)>,
    pub text: Option<String>,
    pub cdata: Option<String>,
    pub children: Vec<Element>,
}

/// The model of an attribute list: each name and raw value as its
/// character sequence, in order.
pub open spec fn attrs_model(attrs: Seq<(String, String)>) -> Seq<(Seq<char>, Seq<char>)> {
    Seq::new(attrs.len(), |i: int| (attrs[i].0@, attrs[i].1@))
}

/// The model of an element: every string replaced by its character
/// sequence, recursively through the children.
pub open spec fn elem_model(e: Element) -> ElemModel
    decreases e,
{
    ElemModel {
        name: e.name@,
        attrs: attrs_model(e.attributes@),
        text: match e.text {
            Option::Some(t) => Option::Some(t@),
            Option::None => Option::None,
        },
        cdata: match e.cdata {
            Option::Some(c) => Option::Some(c@),
            Option::None => Option::None,
        },
        children: children_model(e.children@),
    }
}

/// The models of a sequence of elements, in order.
pub open spec fn children_model(cs: Seq<Element>) -> Seq<ElemModel>
    decreases cs,
{
    if cs.len() == 0 {
        Seq::empty()
    } else {
        seq![elem_model(cs[0])] + children_model(cs.drop_first())
    }
}

/// Each entry of `children_model` is the model of the element at the same
/// position.
pub proof fn lemma_children_model(cs: Seq<Element>)
    ensures
        children_model(cs).len() == cs.len(),
        forall|i: int| 0 <= i < cs.len() ==> children_model(cs)[i] == elem_model(cs[i]),
    decreases cs.len(),
{
    if cs.len() > 0 {
        lemma_children_model(cs.drop_first());
    }
}

impl View for Element {
    type V = ElemModel;

    open spec fn view(&self) -> ElemModel {
        elem_model(*self)
    }
}

/// The six structural shapes an element can take. Classification is total:
/// every element falls under exactly one variant.
#[derive(Clone, Copy, Debug, PartialEq, Eq)]
pub enum XMLNodeType {
    /// No children, no text or CDATA, no attributes.
    Empty,
    /// No children, text or CDATA present, no attributes.
    Text,
    /// No children, no text or CDATA, attributes present.
    Attributes,
    /// No children, text or CDATA present, attributes present.
    TextAndAttributes,
    /// Children present, no text and no CDATA.
    Parent,
    /// Children present together with text or CDATA; unsupported downstream.
    SemiStructured,
}

/// The shape of an element, decided by which parts are present.
pub open spec fn classify(e: ElemModel) -> XMLNodeType {
    if e.children.len() == 0 {
        if e.text is None && e.cdata is None {
            if e.attrs.len() == 0 {
                XMLNodeType::Empty
            } else {
                XMLNodeType::Attributes
            }
        } else {
            if e.attrs.len() == 0 {
                XMLNodeType::Text
            } else {
                XMLNodeType::TextAndAttributes
            }
        }
    } else {
        if e.text is Some || e.cdata is Some {
            XMLNodeType::SemiStructured
        } else {
            XMLNodeType::Parent
        }
    }
}

/// Classify one element by its shape.
pub fn scan_xml_node(e: &Element) -> (t: XMLNodeType)
    ensures
        t == classify(e@),
{
    if e.children.len() == 0 {
        if e.text.is_none() && e.cdata.is_none() {
            if e.attributes.len() == 0 {
                XMLNodeType::Empty
            } else {
                XMLNodeType::Attributes
            }
        } else {
            if e.attributes.len() == 0 {
                XMLNodeType::Text
            } else {
                XMLNodeType::TextAndAttributes
            }
        }
    } else {
        if e.text.is_some() || e.cdata.is_some() {
            XMLNodeType::SemiStructured
        } else {
            XMLNodeType::Parent
        }
    }
}

} // verus!
