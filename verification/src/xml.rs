//! XML documents as a flat list of nodes in document order, each pointing at
//! its parent. roxmltree parses; the DAV readers walk the list.

use vstd::prelude::*;
use crate::text::{lower_seq, opt_view};
use roxmltree::{Document, NodeType};

verus! {

#[derive(Clone, Copy, PartialEq, Eq, Debug, Structural)]
pub enum XmlKind {
    Root,
    Element,
    Text,
    /// A comment or a processing instruction.
    Other,
}

/// One node of a parsed document.
pub struct XmlNode {
    /// Position of the parent node in the list (none for the root).
    pub parent: Option<usize>,
    pub kind: XmlKind,
    /// Namespace URI of an element's tag.
    pub ns: Option<String>,
    /// Local tag name of an element (empty for other nodes).
    pub name: String,
    /// roxmltree's `text()`: a text node's text, or an element's first child
    /// when that child is text.
    pub text: Option<String>,
    /// Value of the element's `name` attribute.
    pub name_attr: Option<String>,
}

pub struct XmlNodeV {
    pub parent: Option<usize>,
    pub kind: XmlKind,
    pub ns: Option<Seq<char>>,
    pub name: Seq<char>,
    pub text: Option<Seq<char>>,
    pub name_attr: Option<Seq<char>>,
}

impl View for XmlNode {
    type V = XmlNodeV;

    open spec fn view(&self) -> XmlNodeV {
        XmlNodeV {
            parent: self.parent,
            kind: self.kind,
            ns: opt_view(self.ns),
            name: self.name@,
            text: opt_view(self.text),
            name_attr: opt_view(self.name_attr),
        }
    }
}

pub open spec fn nodes_view(v: Seq<XmlNode>) -> Seq<XmlNodeV> {
    Seq::new(v.len(), |i: int| v[i]@)
}

/// The node list roxmltree produces for `xml`, if it is well-formed.
pub uninterp spec fn xml_flat(xml: Seq<char>) -> Option<Seq<XmlNodeV>>;

/// `roxmltree::Document::parse(xml)`, with every node of
/// `descendants()` (document order, the root first) converted field by field;
/// a node's parent is given by its id, which is its position in that order.
/// Claims only that the list is the one roxmltree gives for `xml`, and that
/// parsing fails exactly when no list is given.
#[verifier::external_body]
pub(crate) fn parse_xml(xml: &str) -> (r: Result<Vec<XmlNode>, String>)
    ensures
        match r {
            Ok(v) => xml_flat(xml@) == Some(nodes_view(v@)),
            Err(_) => xml_flat(xml@) is None,
        },
{
    let doc = Document::parse(xml).map_err(|e| e.to_string())?;
    Ok(doc.descendants().map(|n| XmlNode {
        parent: n.parent().map(|p| p.id().get_usize()),
        kind: match n.node_type() { NodeType::Root => XmlKind::Root, NodeType::Element => XmlKind::Element, NodeType::Text => XmlKind::Text, _ => XmlKind::Other },
        ns: n.tag_name().namespace().map(String::from),
        name: n.tag_name().name().to_string(),
        text: n.text().map(String::from),
        name_attr: n.attribute("name").map(String::from),
    }).collect())
}

/// Lower-cased local name of a node (empty for non-elements).
pub open spec fn local(n: XmlNodeV) -> Seq<char> {
    lower_seq(n.name)
}

/// Node `j` is a child of node `i`.
pub open spec fn child_of(ns: Seq<XmlNodeV>, j: int, i: int) -> bool {
    0 <= j < ns.len() && 0 <= i && ns[j].parent == Some(i as usize)
}

/// Node `j` lies in the subtree of node `p` (itself included), following
/// parents that come earlier in the list.
pub open spec fn in_subtree(ns: Seq<XmlNodeV>, j: int, p: int) -> bool
    decreases j,
{
    if j < 0 || j >= ns.len() {
        false
    } else if j == p {
        true
    } else {
        match ns[j].parent {
            Some(q) => (q as int) < j && in_subtree(ns, q as int, p),
            None => false,
        }
    }
}

/// The first child of `i` at or after position `from` whose lower-cased
/// local name is `name`.
pub open spec fn first_named_child(ns: Seq<XmlNodeV>, i: int, name: Seq<char>, from: int) -> Option<int>
    decreases ns.len() - from,
{
    if from < 0 || from >= ns.len() {
        None
    } else if child_of(ns, from, i) && local(ns[from]) == name {
        Some(from)
    } else {
        first_named_child(ns, i, name, from + 1)
    }
}

pub proof fn lemma_first_named_child(ns: Seq<XmlNodeV>, i: int, name: Seq<char>, from: int)
    ensures
        first_named_child(ns, i, name, from) matches Some(j) ==> from <= j < ns.len() && child_of(ns, j, i) && local(
            ns[j],
        ) == name,
    decreases ns.len() - from,
{
    if from >= 0 && from < ns.len() {
        lemma_first_named_child(ns, i, name, from + 1);
    }
}

/// Position of the first child of `i` named `name` (lower-cased local name).
pub fn find_child(ns: &Vec<XmlNode>, i: usize, name: &str) -> (r: Option<usize>)
    ensures
        match r {
            Some(j) => first_named_child(nodes_view(ns@), i as int, name@, 0) == Some(j as int),
            None => first_named_child(nodes_view(ns@), i as int, name@, 0) is None,
        },
{
    let ghost nv = nodes_view(ns@);
    let mut j: usize = 0;
    while j < ns.len()
        invariant
            nv == nodes_view(ns@),
            0 <= j <= nv.len(),
            first_named_child(nv, i as int, name@, 0) == first_named_child(nv, i as int, name@, j as int),
        decreases nv.len() - j,
    {
        let n = &ns[j];
        proof {
            assert(nv[j as int] == n@);
        }
        let is_child = match n.parent {
            Some(p) => p == i,
            None => false,
        };
        if is_child {
            let l = crate::text::lower_string(n.name.as_str());
            if crate::text::str_eq(l.as_str(), name) {
                return Some(j);
            }
        }
        j = j + 1;
    }
    None
}

/// For every position, whether it lies in the subtree of `p`.
pub fn subtree_marks(ns: &Vec<XmlNode>, p: usize) -> (m: Vec<bool>)
    ensures
        m@.len() == ns@.len(),
        forall|j: int| 0 <= j < ns@.len() ==> m@[j] == in_subtree(nodes_view(ns@), j, p as int),
{
    let ghost nv = nodes_view(ns@);
    let mut m: Vec<bool> = Vec::new();
    let mut j: usize = 0;
    while j < ns.len()
        invariant
            nv == nodes_view(ns@),
            0 <= j <= nv.len(),
            m@.len() == j,
            forall|k: int| 0 <= k < j ==> m@[k] == in_subtree(nv, k, p as int),
        decreases nv.len() - j,
    {
        proof {
            assert(nv[j as int] == ns@[j as int]@);
        }
        let b = if j == p {
            true
        } else {
            match ns[j].parent {
                Some(q) => q < j && m[q],
                None => false,
            }
        };
        m.push(b);
        j = j + 1;
    }
    m
}

} // verus!
