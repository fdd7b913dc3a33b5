//! The unified node handle.
//!
//! Each concrete node kind has its own lightweight handle type; [`Node`] is
//! the closed tagged union over all six of them. A handle is a non-owning
//! reference into a [`crate::dom::Document`]: it records the identifier of
//! the owning document and the arena index of the node. Equality and hashing
//! are by node identity (same document, same arena slot), never by content.

use vstd::prelude::*;

verus! {

/// Handle to the root of a document. Each document has exactly one.
#[derive(Copy, Clone, PartialEq, Eq, Hash, Debug, Structural)]
pub struct Root {
    pub doc: u64,
}

/// Handle to an element node.
#[derive(Copy, Clone, PartialEq, Eq, Hash, Debug, Structural)]
pub struct Element {
    pub doc: u64,
    pub index: usize,
}

/// Handle to an attribute node.
#[derive(Copy, Clone, PartialEq, Eq, Hash, Debug, Structural)]
pub struct Attribute {
    pub doc: u64,
    pub index: usize,
}

/// Handle to a text node.
#[derive(Copy, Clone, PartialEq, Eq, Hash, Debug, Structural)]
pub struct Text {
    pub doc: u64,
    pub index: usize,
}

/// Handle to a comment node.
#[derive(Copy, Clone, PartialEq, Eq, Hash, Debug, Structural)]
pub struct Comment {
    pub doc: u64,
    pub index: usize,
}

/// Handle to a processing-instruction node.
#[derive(Copy, Clone, PartialEq, Eq, Hash, Debug, Structural)]
pub struct ProcessingInstruction {
    pub doc: u64,
    pub index: usize,
}

/// The unified node handle: a closed tagged union over exactly the six node
/// kinds. Adding a kind forces every consumer to be updated, since all
/// matches over it are exhaustive.
#[derive(Copy, Clone, PartialEq, Eq, Hash, Debug, Structural)]
pub enum Node {
    Root(Root),
    Element(Element),
    Attribute(Attribute),
    Text(Text),
    Comment(Comment),
    ProcessingInstruction(ProcessingInstruction),
}

/// A node legal as a child of the document root.
#[derive(Copy, Clone, PartialEq, Eq, Hash, Debug, Structural)]
pub enum ChildOfRoot {
    Element(Element),
    Comment(Comment),
    ProcessingInstruction(ProcessingInstruction),
}

/// A node legal as a child of an element.
#[derive(Copy, Clone, PartialEq, Eq, Hash, Debug, Structural)]
pub enum ChildOfElement {
    Element(Element),
    Text(Text),
    Comment(Comment),
    ProcessingInstruction(ProcessingInstruction),
}

/// A node legal as the parent of another node.
#[derive(Copy, Clone, PartialEq, Eq, Hash, Debug, Structural)]
pub enum ParentOfChild {
    Root(Root),
    Element(Element),
}

/// The capability of converting a concrete node kind, or one of the
/// tree-defined unions of node kinds, into the unified [`Node`] handle.
/// Converting an already-unified `Node` is the identity operation.
pub trait ToNode: Sized {
    /// The unified handle this value stands for.
    spec fn node_view(self) -> Node;

    /// Convert into the unified handle.
    fn to_node(self) -> (n: Node)
        ensures
            n == self.node_view(),
    ;
}

impl ToNode for Node {
    open spec fn node_view(self) -> Node {
        self
    }

    fn to_node(self) -> (n: Node)
        ensures
            n == self.node_view(),
    {
        self
    }
}

impl ToNode for Root {
    open spec fn node_view(self) -> Node {
        Node::Root(self)
    }

    fn to_node(self) -> (n: Node)
        ensures
            n == self.node_view(),
    {
        Node::Root(self)
    }
}

impl ToNode for Element {
    open spec fn node_view(self) -> Node {
        Node::Element(self)
    }

    fn to_node(self) -> (n: Node)
        ensures
            n == self.node_view(),
    {
        Node::Element(self)
    }
}

impl ToNode for Attribute {
    open spec fn node_view(self) -> Node {
        Node::Attribute(self)
    }

    fn to_node(self) -> (n: Node)
        ensures
            n == self.node_view(),
    {
        Node::Attribute(self)
    }
}

impl ToNode for Text {
    open spec fn node_view(self) -> Node {
        Node::Text(self)
    }

    fn to_node(self) -> (n: Node)
        ensures
            n == self.node_view(),
    {
        Node::Text(self)
    }
}

impl ToNode for Comment {
    open spec fn node_view(self) -> Node {
        Node::Comment(self)
    }

    fn to_node(self) -> (n: Node)
        ensures
            n == self.node_view(),
    {
        Node::Comment(self)
    }
}

impl ToNode for ProcessingInstruction {
    open spec fn node_view(self) -> Node {
        Node::ProcessingInstruction(self)
    }

    fn to_node(self) -> (n: Node)
        ensures
            n == self.node_view(),
    {
        Node::ProcessingInstruction(self)
    }
}

impl ToNode for ChildOfRoot {
    open spec fn node_view(self) -> Node {
        match self {
            ChildOfRoot::Element(n) => Node::Element(n),
            ChildOfRoot::Comment(n) => Node::Comment(n),
            ChildOfRoot::ProcessingInstruction(n) => Node::ProcessingInstruction(n),
        }
    }

    fn to_node(self) -> (n: Node)
        ensures
            n == self.node_view(),
    {
        match self {
            ChildOfRoot::Element(n) => Node::Element(n),
            ChildOfRoot::Comment(n) => Node::Comment(n),
            ChildOfRoot::ProcessingInstruction(n) => Node::ProcessingInstruction(n),
        }
    }
}

impl ToNode for ChildOfElement {
    open spec fn node_view(self) -> Node {
        match self {
            ChildOfElement::Element(n) => Node::Element(n),
            ChildOfElement::Text(n) => Node::Text(n),
            ChildOfElement::Comment(n) => Node::Comment(n),
            ChildOfElement::ProcessingInstruction(n) => Node::ProcessingInstruction(n),
        }
    }

    fn to_node(self) -> (n: Node)
        ensures
            n == self.node_view(),
    {
        match self {
            ChildOfElement::Element(n) => Node::Element(n),
            ChildOfElement::Text(n) => Node::Text(n),
            ChildOfElement::Comment(n) => Node::Comment(n),
            ChildOfElement::ProcessingInstruction(n) => Node::ProcessingInstruction(n),
        }
    }
}

impl ToNode for ParentOfChild {
    open spec fn node_view(self) -> Node {
        match self {
            ParentOfChild::Root(n) => Node::Root(n),
            ParentOfChild::Element(n) => Node::Element(n),
        }
    }

    fn to_node(self) -> (n: Node)
        ensures
            n == self.node_view(),
    {
        match self {
            ParentOfChild::Root(n) => Node::Root(n),
            ParentOfChild::Element(n) => Node::Element(n),
        }
    }
}

/// Index of the first occurrence of a handle in a vector of handles.
pub(crate) fn position_of(v: &Vec<Node>, n: Node) -> (r: Option<usize>)
    ensures
        match r {
            Some(k) => k < v@.len() && v@[k as int] == n && forall|j: int|
                0 <= j < k ==> v@[j] != n,
            None => !v@.contains(n),
        },
{
    let mut k: usize = 0;
    while k < v.len()
        invariant
            0 <= k <= v@.len(),
            forall|j: int| 0 <= j < k ==> v@[j] != n,
        decreases v@.len() - k,
    {
        if v[k] == n {
            return Some(k);
        }
        k = k + 1;
    }
    None
}

impl Root {
    /// Identifier of the document this handle belongs to.
    pub open spec fn doc_id(self) -> u64 {
        self.doc
    }

    /// The owning document, by identifier.
    pub fn document(&self) -> (d: u64)
        ensures
            d == self.doc_id(),
    {
        self.doc
    }
}

impl Element {
    /// Identifier of the document this handle belongs to.
    pub open spec fn doc_id(self) -> u64 {
        self.doc
    }

    /// The owning document, by identifier.
    pub fn document(&self) -> (d: u64)
        ensures
            d == self.doc_id(),
    {
        self.doc
    }
}

impl Attribute {
    /// Identifier of the document this handle belongs to.
    pub open spec fn doc_id(self) -> u64 {
        self.doc
    }

    /// The owning document, by identifier.
    pub fn document(&self) -> (d: u64)
        ensures
            d == self.doc_id(),
    {
        self.doc
    }
}

impl Text {
    /// Identifier of the document this handle belongs to.
    pub open spec fn doc_id(self) -> u64 {
        self.doc
    }

    /// The owning document, by identifier.
    pub fn document(&self) -> (d: u64)
        ensures
            d == self.doc_id(),
    {
        self.doc
    }
}

impl Comment {
    /// Identifier of the document this handle belongs to.
    pub open spec fn doc_id(self) -> u64 {
        self.doc
    }

    /// The owning document, by identifier.
    pub fn document(&self) -> (d: u64)
        ensures
            d == self.doc_id(),
    {
        self.doc
    }
}

impl ProcessingInstruction {
    /// Identifier of the document this handle belongs to.
    pub open spec fn doc_id(self) -> u64 {
        self.doc
    }

    /// The owning document, by identifier.
    pub fn document(&self) -> (d: u64)
        ensures
            d == self.doc_id(),
    {
        self.doc
    }
}

impl Node {
    /// Identifier of the owning document, whatever the node kind.
    pub open spec fn doc_id(self) -> u64 {
        match self {
            Node::Root(n) => n.doc_id(),
            Node::Element(n) => n.doc_id(),
            Node::Attribute(n) => n.doc_id(),
            Node::Text(n) => n.doc_id(),
            Node::Comment(n) => n.doc_id(),
            Node::ProcessingInstruction(n) => n.doc_id(),
        }
    }

    /// The owning document, by identifier. Defined for every variant.
    pub fn document(&self) -> (d: u64)
        ensures
            d == self.doc_id(),
    {
        match *self {
            Node::Root(n) => n.document(),
            Node::Element(n) => n.document(),
            Node::Attribute(n) => n.document(),
            Node::Text(n) => n.document(),
            Node::Comment(n) => n.document(),
            Node::ProcessingInstruction(n) => n.document(),
        }
    }

    /// Narrow to the root kind; `None` when the handle is of another kind.
    pub fn root(self) -> (r: Option<Root>)
        ensures
            r == (match self {
                Node::Root(n) => Some(n),
                _ => None::<Root>,
            }),
    {
        match self {
            Node::Root(n) => Some(n),
            _ => None,
        }
    }

    /// Narrow to the element kind; `None` when the handle is of another kind.
    pub fn element(self) -> (r: Option<Element>)
        ensures
            r == (match self {
                Node::Element(n) => Some(n),
                _ => None::<Element>,
            }),
    {
        match self {
            Node::Element(n) => Some(n),
            _ => None,
        }
    }

    /// Narrow to the attribute kind; `None` when the handle is of another kind.
    pub fn attribute(self) -> (r: Option<Attribute>)
        ensures
            r == (match self {
                Node::Attribute(n) => Some(n),
                _ => None::<Attribute>,
            }),
    {
        match self {
            Node::Attribute(n) => Some(n),
            _ => None,
        }
    }

    /// Narrow to the text kind; `None` when the handle is of another kind.
    pub fn text(self) -> (r: Option<Text>)
        ensures
            r == (match self {
                Node::Text(n) => Some(n),
                _ => None::<Text>,
            }),
    {
        match self {
            Node::Text(n) => Some(n),
            _ => None,
        }
    }

    /// Narrow to the comment kind; `None` when the handle is of another kind.
    pub fn comment(self) -> (r: Option<Comment>)
        ensures
            r == (match self {
                Node::Comment(n) => Some(n),
                _ => None::<Comment>,
            }),
    {
        match self {
            Node::Comment(n) => Some(n),
            _ => None,
        }
    }

    /// Narrow to the processing-instruction kind; `None` when the handle is
    /// of another kind.
    pub fn processing_instruction(self) -> (r: Option<ProcessingInstruction>)
        ensures
            r == (match self {
                Node::ProcessingInstruction(n) => Some(n),
                _ => None::<ProcessingInstruction>,
            }),
    {
        match self {
            Node::ProcessingInstruction(n) => Some(n),
            _ => None,
        }
    }
}

} // verus!
