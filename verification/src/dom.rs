//! The document tree.
//!
//! A [`Document`] owns every node of one tree in an arena; the handle types
//! of [`crate::node`] address arena slots by stable integer indices, so no
//! handle ever dangles and identity comparison is index comparison. The tree
//! is built top down: a node is created detached and may be appended below a
//! parent that is already part of the tree; nodes are never moved or removed
//! again. That discipline keeps the parent relation acyclic, which the
//! well-formedness predicate [`Document::wf`] records through a ghost depth
//! stored with every attached node.

use vstd::prelude::*;

use crate::node::Attribute;
use crate::node::ChildOfElement;
use crate::node::ChildOfRoot;
use crate::node::Comment;
use crate::node::Element;
use crate::node::Node;
use crate::node::ParentOfChild;
use crate::node::ProcessingInstruction;
use crate::node::Root;
use crate::node::Text;
use crate::node::ToNode;

verus! {

/// A qualified name, as yielded by [`Node::expanded_name`]. Namespace
/// resolution is out of scope here, so a name is its local part alone.
pub struct QName {
    local_part: String,
}

impl QName {
    /// The local part of the name.
    pub closed spec fn local_view(self) -> Seq<char> {
        self.local_part@
    }

    pub(crate) fn from_string(local_part: String) -> (q: QName)
        ensures
            q.local_view() == local_part@,
    {
        QName { local_part }
    }

    /// The local part of the name.
    pub fn local_part(&self) -> (s: &String)
        ensures
            s@ == self.local_view(),
    {
        &self.local_part
    }
}

/// Kind-specific content of one arena slot.
#[allow(inconsistent_fields)]
enum Payload {
    Element { name: String },
    Attribute { name: String, value: String, owner: Element },
    Text { value: String },
    Comment { value: String },
    ProcessingInstruction { target: String, value: Option<String> },
}

/// One arena slot. `children` and `attributes` stay empty for kinds that
/// cannot have them; `depth` is meaningful only while the node is attached.
struct NodeData {
    payload: Payload,
    parent: Option<ParentOfChild>,
    children: Vec<ChildOfElement>,
    attributes: Vec<Attribute>,
    depth: Ghost<nat>,
}

/// An XML document: the arena that owns every node of one tree.
///
/// The document is the sole source of node identity; every handle records
/// the document identifier it was created under, and all navigation checks
/// it, so handles of one document read as absent in another.
pub struct Document {
    id: u64,
    root_children: Vec<ChildOfRoot>,
    arena: Vec<NodeData>,
    attached: Ghost<nat>,
}

impl Document {
    /// The identifier this document was created with.
    pub closed spec fn id_spec(self) -> u64 {
        self.id
    }

    /// How many nodes have been attached to the tree so far, the root
    /// included. Attributes are not counted: their place in the tree is
    /// their owning element's.
    pub closed spec fn attached_count(self) -> nat {
        self.attached@
    }

    /// The unified handle of this document's root.
    pub closed spec fn root_node(self) -> Node {
        Node::Root(Root { doc: self.id })
    }

    /// Arena index a non-root handle points at.
    spec fn slot(self, n: Node) -> int {
        match n {
            Node::Root(_) => -1,
            Node::Element(h) => h.index as int,
            Node::Attribute(h) => h.index as int,
            Node::Text(h) => h.index as int,
            Node::Comment(h) => h.index as int,
            Node::ProcessingInstruction(h) => h.index as int,
        }
    }

    /// Does this handle name a live node of this document?
    pub closed spec fn is_node(self, n: Node) -> bool {
        n.doc_id() == self.id && match n {
            Node::Root(_) => true,
            Node::Element(_) => 0 <= self.slot(n) < self.arena@.len()
                && self.arena@[self.slot(n)].payload is Element,
            Node::Attribute(_) => 0 <= self.slot(n) < self.arena@.len()
                && self.arena@[self.slot(n)].payload is Attribute,
            Node::Text(_) => 0 <= self.slot(n) < self.arena@.len()
                && self.arena@[self.slot(n)].payload is Text,
            Node::Comment(_) => 0 <= self.slot(n) < self.arena@.len()
                && self.arena@[self.slot(n)].payload is Comment,
            Node::ProcessingInstruction(_) => 0 <= self.slot(n) < self.arena@.len()
                && self.arena@[self.slot(n)].payload is ProcessingInstruction,
        }
    }

    /// The parent relation. The root has no parent; an attribute's parent is
    /// its owning element; every other kind has the parent it was appended
    /// under, if any.
    pub closed spec fn parent_of(self, n: Node) -> Option<Node> {
        if !self.is_node(n) {
            None
        } else {
            match n {
                Node::Root(_) => None,
                Node::Attribute(_) => match self.arena@[self.slot(n)].payload {
                    Payload::Attribute { owner, .. } => Some(Node::Element(owner)),
                    _ => None,
                },
                _ => match self.arena@[self.slot(n)].parent {
                    Some(p) => Some(p.node_view()),
                    None => None,
                },
            }
        }
    }

    /// The ordered child list. Non-empty only for the root and for elements.
    pub closed spec fn kids(self, n: Node) -> Seq<Node> {
        if !self.is_node(n) {
            Seq::empty()
        } else {
            match n {
                Node::Root(_) => self.root_children@.map_values(|c: ChildOfRoot| c.node_view()),
                Node::Element(_) => self.arena@[self.slot(n)].children@.map_values(
                    |c: ChildOfElement| c.node_view(),
                ),
                _ => Seq::empty(),
            }
        }
    }

    /// The ordered attribute list of an element, as unified handles; empty
    /// for every other kind.
    pub closed spec fn attr_seq(self, n: Node) -> Seq<Node> {
        if !self.is_node(n) {
            Seq::empty()
        } else {
            match n {
                Node::Element(_) => self.arena@[self.slot(n)].attributes@.map_values(
                    |a: Attribute| Node::Attribute(a),
                ),
                _ => Seq::empty(),
            }
        }
    }

    /// Distance from the root, for attached nodes; an attribute sits one
    /// step below its owning element.
    pub closed spec fn depth_of(self, n: Node) -> nat {
        if !self.is_node(n) {
            0
        } else {
            match n {
                Node::Root(_) => 0,
                Node::Attribute(_) => match self.arena@[self.slot(n)].payload {
                    Payload::Attribute { owner, .. } => if self.is_node(Node::Element(owner)) {
                        self.arena@[owner.index as int].depth@ + 1
                    } else {
                        0
                    },
                    _ => 0,
                },
                _ => self.arena@[self.slot(n)].depth@,
            }
        }
    }

    /// Is the node part of the tree, that is, reachable from the root? The
    /// root always is; an attribute is whenever its owning element is; every
    /// other kind is once it has been appended under a parent.
    pub closed spec fn in_tree(self, n: Node) -> bool {
        self.is_node(n) && match n {
            Node::Root(_) => true,
            Node::Attribute(_) => match self.arena@[self.slot(n)].payload {
                Payload::Attribute { owner, .. } => self.is_node(Node::Element(owner))
                    && self.arena@[owner.index as int].parent is Some,
                _ => false,
            },
            _ => self.arena@[self.slot(n)].parent is Some,
        }
    }

    /// The expanded name a node yields: an element's tag name, an
    /// attribute's name, a processing instruction's target; nothing for the
    /// root, text and comments.
    pub closed spec fn name_view(self, n: Node) -> Option<Seq<char>> {
        if !self.is_node(n) || n is Root {
            None
        } else {
            match self.arena@[self.slot(n)].payload {
                Payload::Element { name } => Some(name@),
                Payload::Attribute { name, .. } => Some(name@),
                Payload::ProcessingInstruction { target, .. } => Some(target@),
                _ => None,
            }
        }
    }

    /// The textual content a node carries: an attribute's value, a text
    /// node's text, a comment's text, a processing instruction's optional
    /// value; nothing for the root and for elements.
    pub closed spec fn value_view(self, n: Node) -> Option<Seq<char>> {
        if !self.is_node(n) || n is Root {
            None
        } else {
            match self.arena@[self.slot(n)].payload {
                Payload::Attribute { value, .. } => Some(value@),
                Payload::Text { value } => Some(value@),
                Payload::Comment { value } => Some(value@),
                Payload::ProcessingInstruction { value: Some(v), .. } => Some(v@),
                _ => None,
            }
        }
    }

    /// Everything this document records about node `n` reads the same as in
    /// document `prev`.
    pub open spec fn node_unchanged(self, prev: Document, n: Node) -> bool {
        &&& self.is_node(n) == prev.is_node(n)
        &&& self.parent_of(n) == prev.parent_of(n)
        &&& self.kids(n) == prev.kids(n)
        &&& self.attr_seq(n) == prev.attr_seq(n)
        &&& self.depth_of(n) == prev.depth_of(n)
        &&& self.in_tree(n) == prev.in_tree(n)
        &&& self.name_view(n) == prev.name_view(n)
        &&& self.value_view(n) == prev.value_view(n)
    }

    /// Well-formedness of the document tree. Constructors establish it and
    /// every mutation preserves it; all navigation and ordering contracts
    /// assume it.
    pub open spec fn wf(self) -> bool {
        &&& self.attached_count() >= 1
        // the root
        &&& self.root_node() is Root
        &&& self.root_node().doc_id() == self.id_spec()
        &&& self.is_node(self.root_node())
        &&& self.in_tree(self.root_node())
        &&& self.depth_of(self.root_node()) == 0
        &&& self.parent_of(self.root_node()) is None
        &&& forall|n: Node|
            n is Root && #[trigger] self.is_node(n) ==> n == self.root_node()
        // kinds without structure, and handles of other documents
        &&& forall|n: Node|
            !(n is Root || n is Element) ==> #[trigger] self.kids(n) == Seq::<Node>::empty()
        &&& forall|n: Node|
            !(n is Element) ==> #[trigger] self.attr_seq(n) == Seq::<Node>::empty()
        &&& forall|n: Node|
            !self.is_node(n) ==> #[trigger] self.kids(n) == Seq::<Node>::empty()
                && self.attr_seq(n) == Seq::<Node>::empty() && self.parent_of(n) is None
                && !self.in_tree(n)
        // being in the tree
        &&& forall|n: Node| #[trigger] self.in_tree(n) ==> self.is_node(n)
        &&& forall|n: Node|
            #[trigger] self.in_tree(n) && !(n is Root) ==> self.parent_of(n) is Some
        // depth bounds, which make the tree finite downwards
        &&& forall|n: Node| #[trigger] self.in_tree(n) ==> self.depth_of(n) <= self.attached_count()
        &&& forall|n: Node|
            #[trigger] self.in_tree(n) && !(n is Attribute) ==> self.depth_of(n)
                < self.attached_count()
        // child lists: their entries are tree nodes one level down that
        // point back at their parent
        &&& forall|n: Node, i: int|
            self.in_tree(n) && 0 <= i < self.kids(n).len() ==> {
                let c = #[trigger] self.kids(n)[i];
                &&& c.doc_id() == self.id_spec()
                &&& self.is_node(c)
                &&& self.in_tree(c)
                &&& !(c is Root)
                &&& !(c is Attribute)
                &&& self.parent_of(c) == Some(n)
                &&& self.depth_of(c) == self.depth_of(n) + 1
            }
        &&& forall|n: Node, i: int, j: int|
            self.in_tree(n) && 0 <= i < j < self.kids(n).len() ==> #[trigger] self.kids(n)[i]
                != #[trigger] self.kids(n)[j]
        // parent pointers of non-attribute nodes lead to a tree node whose
        // child list holds the node
        &&& forall|n: Node|
            #[trigger] self.parent_of(n) is Some && !(n is Attribute) ==> {
                let p = self.parent_of(n)->0;
                &&& self.is_node(p)
                &&& self.in_tree(p)
                &&& (p is Root || p is Element)
                &&& self.in_tree(n)
                &&& self.kids(p).contains(n)
            }
        // a detached node hangs onto nothing
        &&& forall|n: Node|
            self.is_node(n) && !self.in_tree(n) ==> #[trigger] self.kids(n)
                == Seq::<Node>::empty()
        // attributes belong to an element that lists them
        &&& forall|n: Node|
            n is Attribute && #[trigger] self.is_node(n) ==> {
                let p = self.parent_of(n)->0;
                &&& self.parent_of(n) is Some
                &&& p is Element
                &&& self.is_node(p)
                &&& self.attr_seq(p).contains(n)
                &&& self.depth_of(n) == self.depth_of(p) + 1
                &&& (self.in_tree(n) <==> self.in_tree(p))
            }
        // attribute lists hold attributes of this element, each once
        &&& forall|n: Node, i: int|
            self.is_node(n) && 0 <= i < self.attr_seq(n).len() ==> {
                let a = #[trigger] self.attr_seq(n)[i];
                &&& a is Attribute
                &&& a.doc_id() == self.id_spec()
                &&& self.is_node(a)
                &&& self.parent_of(a) == Some(n)
            }
        &&& forall|n: Node, i: int, j: int|
            self.is_node(n) && 0 <= i < j < self.attr_seq(n).len() ==> #[trigger] self.attr_seq(
                n,
            )[i] != #[trigger] self.attr_seq(n)[j]
    }

    /// Create an empty document under the given identifier. Callers that
    /// work with several documents at once are expected to pick distinct
    /// identifiers, since node identity compares by them.
    pub fn new(id: u64) -> (d: Document)
        ensures
            d.wf(),
            d.id_spec() == id,
            d.attached_count() == 1,
            d.kids(d.root_node()) == Seq::<Node>::empty(),
            forall|n: Node| !(n is Root) ==> !d.is_node(n),
    {
        let d = Document {
            id,
            root_children: Vec::new(),
            arena: Vec::new(),
            attached: Ghost(1),
        };
        proof {
            assert forall|n: Node| !(n is Root) implies !d.is_node(n) by {}
            assert forall|n: Node| !d.is_node(n) implies #[trigger] d.kids(n) == Seq::<
                Node,
            >::empty() && d.attr_seq(n) == Seq::<Node>::empty() && d.parent_of(n) is None
                && !d.in_tree(n) by {}
            assert(d.root_children@.map_values(|c: ChildOfRoot| c.node_view()) =~= Seq::<
                Node,
            >::empty());
            assert forall|n: Node| !(n is Root || n is Element) implies #[trigger] d.kids(n)
                == Seq::<Node>::empty() by {}
            assert forall|n: Node| !(n is Element) implies #[trigger] d.attr_seq(n) == Seq::<
                Node,
            >::empty() by {}
        }
        d
    }

    /// The identifier this document was created with.
    pub fn id(&self) -> (r: u64)
        ensures
            r == self.id_spec(),
    {
        self.id
    }

    /// The root handle.
    pub fn root(&self) -> (r: Root)
        ensures
            Node::Root(r) == self.root_node(),
            r.doc_id() == self.id_spec(),
    {
        Root { doc: self.id }
    }

    /// Create a detached element with the given tag name.
    pub fn create_element(&mut self, name: &str) -> (e: Element)
        requires
            old(self).wf(),
        ensures
            final(self).wf(),
            final(self).fresh_node_post(*old(self), Node::Element(e)),
            final(self).name_view(Node::Element(e)) == Some(name@),
            final(self).value_view(Node::Element(e)) is None,
    {
        let e = Element { doc: self.id, index: self.arena.len() };
        self.arena.push(
            NodeData {
                payload: Payload::Element { name: name.to_owned() },
                parent: None,
                children: Vec::new(),
                attributes: Vec::new(),
                depth: Ghost(0),
            },
        );
        proof {
            lemma_fresh_slot(*old(self), *self, Node::Element(e));
        }
        e
    }

    /// Create a detached text node with the given content.
    pub fn create_text(&mut self, value: &str) -> (t: Text)
        requires
            old(self).wf(),
        ensures
            final(self).wf(),
            final(self).fresh_node_post(*old(self), Node::Text(t)),
            final(self).name_view(Node::Text(t)) is None,
            final(self).value_view(Node::Text(t)) == Some(value@),
    {
        let t = Text { doc: self.id, index: self.arena.len() };
        self.arena.push(
            NodeData {
                payload: Payload::Text { value: value.to_owned() },
                parent: None,
                children: Vec::new(),
                attributes: Vec::new(),
                depth: Ghost(0),
            },
        );
        proof {
            lemma_fresh_slot(*old(self), *self, Node::Text(t));
        }
        t
    }

    /// Create a detached comment with the given content.
    pub fn create_comment(&mut self, value: &str) -> (c: Comment)
        requires
            old(self).wf(),
        ensures
            final(self).wf(),
            final(self).fresh_node_post(*old(self), Node::Comment(c)),
            final(self).name_view(Node::Comment(c)) is None,
            final(self).value_view(Node::Comment(c)) == Some(value@),
    {
        let c = Comment { doc: self.id, index: self.arena.len() };
        self.arena.push(
            NodeData {
                payload: Payload::Comment { value: value.to_owned() },
                parent: None,
                children: Vec::new(),
                attributes: Vec::new(),
                depth: Ghost(0),
            },
        );
        proof {
            lemma_fresh_slot(*old(self), *self, Node::Comment(c));
        }
        c
    }

    /// Create a detached processing instruction with the given target and
    /// optional value.
    pub fn create_processing_instruction(&mut self, target: &str, value: Option<&str>) -> (p:
        ProcessingInstruction)
        requires
            old(self).wf(),
        ensures
            final(self).wf(),
            final(self).fresh_node_post(*old(self), Node::ProcessingInstruction(p)),
            final(self).name_view(Node::ProcessingInstruction(p)) == Some(target@),
            final(self).value_view(Node::ProcessingInstruction(p)) == (match value {
                Some(v) => Some(v@),
                None => None::<Seq<char>>,
            }),
    {
        let owned_value = match value {
            Some(v) => Some(v.to_owned()),
            None => None,
        };
        let p = ProcessingInstruction { doc: self.id, index: self.arena.len() };
        self.arena.push(
            NodeData {
                payload: Payload::ProcessingInstruction { target: target.to_owned(), value: owned_value },
                parent: None,
                children: Vec::new(),
                attributes: Vec::new(),
                depth: Ghost(0),
            },
        );
        proof {
            lemma_fresh_slot(*old(self), *self, Node::ProcessingInstruction(p));
        }
        p
    }

    /// Does this handle name a live node of this document?
    fn check_node(&self, n: Node) -> (r: bool)
        ensures
            r == self.is_node(n),
    {
        match n {
            Node::Root(h) => h.doc == self.id,
            Node::Element(h) => h.doc == self.id && h.index < self.arena.len() && matches!(
                self.arena[h.index].payload,
                Payload::Element { .. },
            ),
            Node::Attribute(h) => h.doc == self.id && h.index < self.arena.len() && matches!(
                self.arena[h.index].payload,
                Payload::Attribute { .. },
            ),
            Node::Text(h) => h.doc == self.id && h.index < self.arena.len() && matches!(
                self.arena[h.index].payload,
                Payload::Text { .. },
            ),
            Node::Comment(h) => h.doc == self.id && h.index < self.arena.len() && matches!(
                self.arena[h.index].payload,
                Payload::Comment { .. },
            ),
            Node::ProcessingInstruction(h) => h.doc == self.id && h.index < self.arena.len()
                && matches!(self.arena[h.index].payload, Payload::ProcessingInstruction { .. }),
        }
    }

    /// Append a node below the document root. Succeeds exactly when the
    /// handle is live in this document and the node is still detached; on
    /// refusal the document is untouched.
    pub fn append_root_child(&mut self, child: ChildOfRoot) -> (r: bool)
        requires
            old(self).wf(),
        ensures
            final(self).wf(),
            r == (old(self).is_node(child.node_view()) && old(self).parent_of(child.node_view())
                is None),
            !r ==> *final(self) == *old(self),
            r ==> final(self).append_post(
                *old(self),
                old(self).root_node(),
                child.node_view(),
            ),
    {
        let n = child.to_node();
        if !self.check_node(n) {
            return false;
        }
        let cidx = match child {
            ChildOfRoot::Element(h) => h.index,
            ChildOfRoot::Comment(h) => h.index,
            ChildOfRoot::ProcessingInstruction(h) => h.index,
        };
        if self.arena[cidx].parent.is_some() {
            return false;
        }
        let ghost prev = *self;
        let id = self.id;
        {
            let d = node_mut(&mut self.arena, cidx);
            d.parent = Some(ParentOfChild::Root(Root { doc: id }));
            d.depth = Ghost(1);
        }
        self.root_children.push(child);
        self.attached = Ghost(prev.attached@ + 1);
        proof {
            assert(self.root_children@ == prev.root_children@.push(child));
            lemma_map_push_child_of_root(prev.root_children@, child);
            lemma_append(prev, *self, prev.root_node(), n, cidx as int);
        }
        true
    }

    /// Append a node below an element that is already part of the tree.
    /// Succeeds exactly when both handles are live in this document, the
    /// parent is attached and the child is still detached; on refusal the
    /// document is untouched.
    pub fn append_element_child(&mut self, parent: Element, child: ChildOfElement) -> (r: bool)
        requires
            old(self).wf(),
        ensures
            final(self).wf(),
            r == (old(self).is_node(Node::Element(parent)) && old(self).in_tree(
                Node::Element(parent),
            ) && old(self).is_node(child.node_view()) && old(self).parent_of(child.node_view())
                is None),
            !r ==> *final(self) == *old(self),
            r ==> final(self).append_post(
                *old(self),
                Node::Element(parent),
                child.node_view(),
            ),
    {
        let n = child.to_node();
        if !self.check_node(Node::Element(parent)) {
            return false;
        }
        if self.arena[parent.index].parent.is_none() {
            return false;
        }
        if !self.check_node(n) {
            return false;
        }
        let cidx = match child {
            ChildOfElement::Element(h) => h.index,
            ChildOfElement::Text(h) => h.index,
            ChildOfElement::Comment(h) => h.index,
            ChildOfElement::ProcessingInstruction(h) => h.index,
        };
        if self.arena[cidx].parent.is_some() {
            return false;
        }
        let ghost prev = *self;
        let ghost pnode = Node::Element(parent);
        proof {
            // the two slots differ: the parent is attached, the child is not
            assert(parent.index != cidx);
        }
        let ghost pd = self.arena@[parent.index as int].depth@;
        {
            let d = node_mut(&mut self.arena, cidx);
            d.parent = Some(ParentOfChild::Element(parent));
            d.depth = Ghost(pd + 1);
        }
        {
            let d = node_mut(&mut self.arena, parent.index);
            d.children.push(child);
        }
        self.attached = Ghost(prev.attached@ + 1);
        proof {
            assert(self.arena@[parent.index as int].children@ == prev.arena@[parent.index
                as int].children@.push(child));
            lemma_map_push_child_of_element(prev.arena@[parent.index as int].children@, child);
            assert(prev.depth_of(pnode) == pd);
            lemma_append(prev, *self, pnode, n, cidx as int);
        }
        true
    }

    /// What both append operations guarantee on success: the child hangs at
    /// the end of the parent's child list one level down, the child's own
    /// attributes came into the tree with it, and every other node of the
    /// document reads unchanged.
    pub open spec fn append_post(self, prev: Document, parent: Node, child: Node) -> bool {
        &&& self.id_spec() == prev.id_spec()
        &&& self.root_node() == prev.root_node()
        &&& self.attached_count() == prev.attached_count() + 1
        &&& self.is_node(parent) && self.is_node(child)
        &&& self.kids(parent) == prev.kids(parent).push(child)
        &&& self.parent_of(child) == Some(parent)
        &&& self.in_tree(child)
        &&& self.depth_of(child) == self.depth_of(parent) + 1
        &&& self.kids(child) == prev.kids(child)
        &&& self.attr_seq(parent) == prev.attr_seq(parent)
        &&& self.attr_seq(child) == prev.attr_seq(child)
        &&& self.parent_of(parent) == prev.parent_of(parent)
        &&& self.depth_of(parent) == prev.depth_of(parent)
        &&& self.in_tree(parent) == prev.in_tree(parent)
        &&& self.name_view(parent) == prev.name_view(parent)
        &&& self.value_view(parent) == prev.value_view(parent)
        &&& self.name_view(child) == prev.name_view(child)
        &&& self.value_view(child) == prev.value_view(child)
        &&& forall|a: Node|
            prev.attr_seq(child).contains(a) ==> #[trigger] self.in_tree(a) && self.depth_of(a)
                == self.depth_of(child) + 1 && self.parent_of(a) == prev.parent_of(a)
                && self.is_node(a) && self.name_view(a) == prev.name_view(a) && self.value_view(a)
                == prev.value_view(a)
        &&& forall|m: Node|
            #![trigger self.is_node(m)]
            #![trigger prev.is_node(m)]
            self.is_node(m) == prev.is_node(m)
        &&& forall|m: Node|
            #![trigger self.name_view(m)]
            #![trigger prev.name_view(m)]
            self.name_view(m) == prev.name_view(m)
        &&& forall|m: Node|
            #![trigger self.value_view(m)]
            #![trigger prev.value_view(m)]
            self.value_view(m) == prev.value_view(m)
        &&& forall|m: Node|
            #![trigger self.attr_seq(m)]
            #![trigger prev.attr_seq(m)]
            self.attr_seq(m) == prev.attr_seq(m)
        &&& forall|m: Node|
            #![trigger self.kids(m)]
            #![trigger prev.kids(m)]
            m != parent ==> self.kids(m) == prev.kids(m)
        &&& forall|m: Node|
            #![trigger self.parent_of(m)]
            #![trigger prev.parent_of(m)]
            m != child ==> self.parent_of(m) == prev.parent_of(m)
        &&& forall|m: Node|
            #![trigger self.depth_of(m)]
            #![trigger prev.depth_of(m)]
            m != child && !prev.attr_seq(child).contains(m) ==> self.depth_of(m)
                == prev.depth_of(m)
        &&& forall|m: Node|
            #![trigger self.in_tree(m)]
            #![trigger prev.in_tree(m)]
            m != child && !prev.attr_seq(child).contains(m) ==> self.in_tree(m)
                == prev.in_tree(m)
    }

    /// First attribute of the element carrying this name, scanning the
    /// attribute list in order.
    fn find_attribute(&self, element: Element, name: &String) -> (r: Option<Attribute>)
        requires
            self.wf(),
            self.is_node(Node::Element(element)),
        ensures
            match r {
                Some(a) => exists|k: int|
                    0 <= k < self.attr_seq(Node::Element(element)).len()
                        && self.attr_seq(Node::Element(element))[k] == Node::Attribute(a)
                        && self.name_view(Node::Attribute(a)) == Some(name@) && forall|j: int|
                        0 <= j < k ==> self.name_view(
                            #[trigger] self.attr_seq(Node::Element(element))[j],
                        ) != Some(name@),
                None => forall|k: int|
                    0 <= k < self.attr_seq(Node::Element(element)).len() ==> self.name_view(
                        #[trigger] self.attr_seq(Node::Element(element))[k],
                    ) != Some(name@),
            },
    {
        let ghost en = Node::Element(element);
        let n_attrs = self.arena[element.index].attributes.len();
        proof {
            assert(self.attr_seq(en).len() == n_attrs);
        }
        let mut k: usize = 0;
        while k < n_attrs
            invariant
                self.wf(),
                self.is_node(en),
                en == Node::Element(element),
                element.index < self.arena@.len(),
                n_attrs == self.attr_seq(en).len(),
                n_attrs == self.arena@[element.index as int].attributes@.len(),
                0 <= k <= n_attrs,
                forall|j: int|
                    0 <= j < k ==> self.name_view(#[trigger] self.attr_seq(en)[j]) != Some(
                        name@,
                    ),
            decreases n_attrs - k,
        {
            let a = self.arena[element.index].attributes[k];
            proof {
                assert(self.attr_seq(en)[k as int] == Node::Attribute(a));
                assert(self.is_node(Node::Attribute(a)));
            }
            let matches_name = match &self.arena[a.index].payload {
                Payload::Attribute { name: nm, .. } => *nm == *name,
                _ => false,
            };
            if matches_name {
                return Some(a);
            }
            k = k + 1;
        }
        None
    }

    /// Set the value of the element's attribute with the given name,
    /// creating the attribute at the end of the attribute list when no
    /// attribute of that name exists yet. Yields the attribute's handle, or
    /// nothing when the element handle is not live in this document (the
    /// document is then untouched).
    pub fn set_attribute_value(&mut self, element: Element, name: &str, value: &str) -> (r: Option<
        Attribute,
    >)
        requires
            old(self).wf(),
        ensures
            final(self).wf(),
            r is Some <==> old(self).is_node(Node::Element(element)),
            r is None ==> *final(self) == *old(self),
            r matches Some(a) ==> final(self).set_attribute_post(
                *old(self),
                element,
                a,
                name@,
                value@,
            ),
    {
        if !self.check_node(Node::Element(element)) {
            return None;
        }
        let ghost prev = *self;
        let ghost en = Node::Element(element);
        let name_owned = name.to_owned();
        match self.find_attribute(element, &name_owned) {
            Some(a) => {
                proof {
                    assert(prev.attr_seq(en).contains(Node::Attribute(a)));
                    assert(prev.is_node(Node::Attribute(a)));
                    assert(prev.parent_of(Node::Attribute(a)) == Some(en));
                    assert(a.index < self.arena@.len());
                }
                {
                    let d = node_mut(&mut self.arena, a.index);
                    d.payload = Payload::Attribute {
                        name: name_owned,
                        value: value.to_owned(),
                        owner: element,
                    };
                }
                proof {
                    lemma_replace_attr_value(prev, *self, element, a, name@, value@);
                }
                Some(a)
            },
            None => {
                let aidx = self.arena.len();
                let a = Attribute { doc: self.id, index: aidx };
                self.arena.push(
                    NodeData {
                        payload: Payload::Attribute {
                            name: name_owned,
                            value: value.to_owned(),
                            owner: element,
                        },
                        parent: None,
                        children: Vec::new(),
                        attributes: Vec::new(),
                        depth: Ghost(0),
                    },
                );
                {
                    let d = node_mut(&mut self.arena, element.index);
                    d.attributes.push(a);
                }
                proof {
                    lemma_map_push_attribute(
                        prev.arena@[element.index as int].attributes@,
                        a,
                    );
                    lemma_fresh_attr(prev, *self, element, a);
                }
                Some(a)
            },
        }
    }

    /// What [`Document::set_attribute_value`] guarantees when the element
    /// handle is live: the yielded attribute belongs to the element, carries
    /// the given name and value, and is either the first attribute that
    /// already carried the name (only its value changed) or a fresh one at
    /// the end of the attribute list.
    pub open spec fn set_attribute_post(
        self,
        prev: Document,
        element: Element,
        a: Attribute,
        name: Seq<char>,
        value: Seq<char>,
    ) -> bool {
        let en = Node::Element(element);
        let an = Node::Attribute(a);
        &&& self.id_spec() == prev.id_spec()
        &&& self.root_node() == prev.root_node()
        &&& self.attached_count() == prev.attached_count()
        &&& a.doc_id() == self.id_spec()
        &&& self.is_node(an)
        &&& self.parent_of(an) == Some(en)
        &&& self.name_view(an) == Some(name)
        &&& self.value_view(an) == Some(value)
        &&& self.kids(an) == Seq::<Node>::empty()
        &&& self.attr_seq(an) == Seq::<Node>::empty()
        &&& (self.in_tree(an) <==> self.in_tree(en))
        &&& self.depth_of(an) == self.depth_of(en) + 1
        &&& if prev.is_node(an) {
            &&& prev.attr_seq(en).contains(an)
            &&& prev.name_view(an) == Some(name)
            &&& self.attr_seq(en) == prev.attr_seq(en)
            &&& exists|k: int|
                0 <= k < prev.attr_seq(en).len() && prev.attr_seq(en)[k] == an && forall|j: int|
                    0 <= j < k ==> prev.name_view(#[trigger] prev.attr_seq(en)[j]) != Some(name)
            &&& forall|m: Node|
                #![trigger self.is_node(m)]
                #![trigger prev.is_node(m)]
                m != an ==> self.is_node(m) == prev.is_node(m)
            &&& forall|m: Node|
                #![trigger self.parent_of(m)]
                #![trigger prev.parent_of(m)]
                m != an ==> self.parent_of(m) == prev.parent_of(m)
            &&& forall|m: Node|
                #![trigger self.kids(m)]
                #![trigger prev.kids(m)]
                m != an ==> self.kids(m) == prev.kids(m)
            &&& forall|m: Node|
                #![trigger self.attr_seq(m)]
                #![trigger prev.attr_seq(m)]
                m != an ==> self.attr_seq(m) == prev.attr_seq(m)
            &&& forall|m: Node|
                #![trigger self.depth_of(m)]
                #![trigger prev.depth_of(m)]
                m != an ==> self.depth_of(m) == prev.depth_of(m)
            &&& forall|m: Node|
                #![trigger self.in_tree(m)]
                #![trigger prev.in_tree(m)]
                m != an ==> self.in_tree(m) == prev.in_tree(m)
            &&& forall|m: Node|
                #![trigger self.name_view(m)]
                #![trigger prev.name_view(m)]
                m != an ==> self.name_view(m) == prev.name_view(m)
            &&& forall|m: Node|
                #![trigger self.value_view(m)]
                #![trigger prev.value_view(m)]
                m != an ==> self.value_view(m) == prev.value_view(m)
            &&& self.parent_of(an) == prev.parent_of(an)
            &&& self.in_tree(an) == prev.in_tree(an)
            &&& self.depth_of(an) == prev.depth_of(an)
        } else {
            &&& self.attr_seq(en) == prev.attr_seq(en).push(an)
            &&& forall|k: int|
                0 <= k < prev.attr_seq(en).len() ==> prev.name_view(
                    #[trigger] prev.attr_seq(en)[k],
                ) != Some(name)
            &&& forall|m: Node|
                #![trigger self.is_node(m)]
                #![trigger prev.is_node(m)]
                m != an && m != en ==> self.is_node(m) == prev.is_node(m)
            &&& forall|m: Node|
                #![trigger self.parent_of(m)]
                #![trigger prev.parent_of(m)]
                m != an && m != en ==> self.parent_of(m) == prev.parent_of(m)
            &&& forall|m: Node|
                #![trigger self.kids(m)]
                #![trigger prev.kids(m)]
                m != an && m != en ==> self.kids(m) == prev.kids(m)
            &&& forall|m: Node|
                #![trigger self.attr_seq(m)]
                #![trigger prev.attr_seq(m)]
                m != an && m != en ==> self.attr_seq(m) == prev.attr_seq(m)
            &&& forall|m: Node|
                #![trigger self.depth_of(m)]
                #![trigger prev.depth_of(m)]
                m != an && m != en ==> self.depth_of(m) == prev.depth_of(m)
            &&& forall|m: Node|
                #![trigger self.in_tree(m)]
                #![trigger prev.in_tree(m)]
                m != an && m != en ==> self.in_tree(m) == prev.in_tree(m)
            &&& forall|m: Node|
                #![trigger self.name_view(m)]
                #![trigger prev.name_view(m)]
                m != an && m != en ==> self.name_view(m) == prev.name_view(m)
            &&& forall|m: Node|
                #![trigger self.value_view(m)]
                #![trigger prev.value_view(m)]
                m != an && m != en ==> self.value_view(m) == prev.value_view(m)
            &&& self.kids(en) == prev.kids(en)
            &&& self.parent_of(en) == prev.parent_of(en)
            &&& self.depth_of(en) == prev.depth_of(en)
            &&& self.in_tree(en) == prev.in_tree(en)
            &&& self.name_view(en) == prev.name_view(en)
            &&& self.value_view(en) == prev.value_view(en)
        }
    }

    /// What every `create_*` call guarantees about the node it made: the
    /// handle is new, names a detached node of this document, and every
    /// other node of the document reads unchanged.
    pub open spec fn fresh_node_post(self, prev: Document, fresh: Node) -> bool {
        &&& self.id_spec() == prev.id_spec()
        &&& self.attached_count() == prev.attached_count()
        &&& self.root_node() == prev.root_node()
        &&& fresh.doc_id() == self.id_spec()
        &&& !prev.is_node(fresh)
        &&& self.is_node(fresh)
        &&& self.parent_of(fresh) is None
        &&& !self.in_tree(fresh)
        &&& self.kids(fresh) == Seq::<Node>::empty()
        &&& self.attr_seq(fresh) == Seq::<Node>::empty()
        &&& forall|m: Node|
            #![trigger self.is_node(m)]
            #![trigger prev.is_node(m)]
            m != fresh ==> self.is_node(m) == prev.is_node(m)
        &&& forall|m: Node|
            #![trigger self.parent_of(m)]
            #![trigger prev.parent_of(m)]
            m != fresh ==> self.parent_of(m) == prev.parent_of(m)
        &&& forall|m: Node|
            #![trigger self.kids(m)]
            #![trigger prev.kids(m)]
            m != fresh ==> self.kids(m) == prev.kids(m)
        &&& forall|m: Node|
            #![trigger self.attr_seq(m)]
            #![trigger prev.attr_seq(m)]
            m != fresh ==> self.attr_seq(m) == prev.attr_seq(m)
        &&& forall|m: Node|
            #![trigger self.depth_of(m)]
            #![trigger prev.depth_of(m)]
            m != fresh ==> self.depth_of(m) == prev.depth_of(m)
        &&& forall|m: Node|
            #![trigger self.in_tree(m)]
            #![trigger prev.in_tree(m)]
            m != fresh ==> self.in_tree(m) == prev.in_tree(m)
        &&& forall|m: Node|
            #![trigger self.name_view(m)]
            #![trigger prev.name_view(m)]
            m != fresh ==> self.name_view(m) == prev.name_view(m)
        &&& forall|m: Node|
            #![trigger self.value_view(m)]
            #![trigger prev.value_view(m)]
            m != fresh ==> self.value_view(m) == prev.value_view(m)
    }
}

impl Document {
    /// The attribute handles of an element, in attribute-list order; empty
    /// for a handle that is not live in this document.
    pub fn attributes(&self, element: Element) -> (r: Vec<Attribute>)
        ensures
            r@.map_values(|x: Attribute| Node::Attribute(x)) == self.attr_seq(
                Node::Element(element),
            ),
    {
        let ghost en = Node::Element(element);
        let mut out: Vec<Attribute> = Vec::new();
        if !self.check_node(Node::Element(element)) {
            proof {
                assert(out@.map_values(|x: Attribute| Node::Attribute(x)) =~= self.attr_seq(en));
            }
            return out;
        }
        let n_attrs = self.arena[element.index].attributes.len();
        let mut k: usize = 0;
        while k < n_attrs
            invariant
                self.is_node(en),
                element.index < self.arena@.len(),
                n_attrs == self.arena@[element.index as int].attributes@.len(),
                0 <= k <= n_attrs,
                out@ == self.arena@[element.index as int].attributes@.subrange(0, k as int),
            decreases n_attrs - k,
        {
            out.push(self.arena[element.index].attributes[k]);
            proof {
                assert(out@ =~= self.arena@[element.index as int].attributes@.subrange(
                    0,
                    k as int + 1,
                ));
            }
            k = k + 1;
        }
        proof {
            assert(out@ =~= self.arena@[element.index as int].attributes@);
            assert(out@.map_values(|x: Attribute| Node::Attribute(x)) =~= self.attr_seq(en));
        }
        out
    }

    /// The value of an attribute; nothing for a handle that is not live in
    /// this document.
    pub fn attribute_value(&self, a: Attribute) -> (r: Option<&String>)
        ensures
            r is Some <==> self.is_node(Node::Attribute(a)),
            r matches Some(s) ==> self.value_view(Node::Attribute(a)) == Some(s@),
    {
        if !self.check_node(Node::Attribute(a)) {
            return None;
        }
        match &self.arena[a.index].payload {
            Payload::Attribute { value, .. } => Some(value),
            _ => None,
        }
    }

    /// The text of a text node; nothing for a handle that is not live in
    /// this document.
    pub fn text_value(&self, t: Text) -> (r: Option<&String>)
        ensures
            r is Some <==> self.is_node(Node::Text(t)),
            r matches Some(s) ==> self.value_view(Node::Text(t)) == Some(s@),
    {
        if !self.check_node(Node::Text(t)) {
            return None;
        }
        match &self.arena[t.index].payload {
            Payload::Text { value } => Some(value),
            _ => None,
        }
    }

    /// The text of a comment; nothing for a handle that is not live in this
    /// document.
    pub fn comment_value(&self, c: Comment) -> (r: Option<&String>)
        ensures
            r is Some <==> self.is_node(Node::Comment(c)),
            r matches Some(s) ==> self.value_view(Node::Comment(c)) == Some(s@),
    {
        if !self.check_node(Node::Comment(c)) {
            return None;
        }
        match &self.arena[c.index].payload {
            Payload::Comment { value } => Some(value),
            _ => None,
        }
    }
}

impl Node {
    /// The node's expanded name: an element's tag name, an attribute's
    /// name, a processing instruction's target (a name with no namespace);
    /// nothing for the root, text and comments, or for a handle that is not
    /// live in the given document.
    pub fn expanded_name(&self, doc: &Document) -> (r: Option<QName>)
        ensures
            r is Some <==> doc.name_view(*self) is Some,
            r matches Some(q) ==> doc.name_view(*self) == Some(q.local_view()),
    {
        if !doc.check_node(*self) {
            return None;
        }
        match *self {
            Node::Root(_) => None,
            Node::Text(_) => None,
            Node::Comment(_) => None,
            Node::Element(h) => match &doc.arena[h.index].payload {
                Payload::Element { name } => Some(QName::from_string(name.clone())),
                _ => None,
            },
            Node::Attribute(h) => match &doc.arena[h.index].payload {
                Payload::Attribute { name, .. } => Some(QName::from_string(name.clone())),
                _ => None,
            },
            Node::ProcessingInstruction(h) => match &doc.arena[h.index].payload {
                Payload::ProcessingInstruction { target, .. } => Some(
                    QName::from_string(target.clone()),
                ),
                _ => None,
            },
        }
    }

    /// The node's parent: nothing for the root, the owning element for an
    /// attribute, the node it was appended under for every other kind.
    pub fn parent(&self, doc: &Document) -> (r: Option<Node>)
        ensures
            r == doc.parent_of(*self),
    {
        if !doc.check_node(*self) {
            return None;
        }
        match *self {
            Node::Root(_) => None,
            Node::Attribute(h) => match &doc.arena[h.index].payload {
                Payload::Attribute { owner, .. } => Some(Node::Element(*owner)),
                _ => None,
            },
            Node::Element(h) => match doc.arena[h.index].parent {
                Some(p) => Some(p.to_node()),
                None => None,
            },
            Node::Text(h) => match doc.arena[h.index].parent {
                Some(p) => Some(p.to_node()),
                None => None,
            },
            Node::Comment(h) => match doc.arena[h.index].parent {
                Some(p) => Some(p.to_node()),
                None => None,
            },
            Node::ProcessingInstruction(h) => match doc.arena[h.index].parent {
                Some(p) => Some(p.to_node()),
                None => None,
            },
        }
    }

    /// The node's children, in child-list order. Only the root and elements
    /// have any; every other kind yields the empty sequence.
    pub fn children(&self, doc: &Document) -> (r: Vec<Node>)
        ensures
            r@ == doc.kids(*self),
            !(*self is Root || *self is Element) ==> r@ == Seq::<Node>::empty(),
    {
        let n = *self;
        let mut out: Vec<Node> = Vec::new();
        if !doc.check_node(n) {
            proof {
                assert(out@ =~= doc.kids(n));
            }
            return out;
        }
        match n {
            Node::Root(_) => {
                let len = doc.root_children.len();
                let mut k: usize = 0;
                while k < len
                    invariant
                        doc.is_node(n),
                        n is Root,
                        len == doc.root_children@.len(),
                        0 <= k <= len,
                        out@.len() == k,
                        forall|j: int| 0 <= j < k ==> out@[j] == doc.kids(n)[j],
                    decreases len - k,
                {
                    out.push(doc.root_children[k].to_node());
                    k = k + 1;
                }
                proof {
                    assert(out@ =~= doc.kids(n));
                }
            },
            Node::Element(h) => {
                let len = doc.arena[h.index].children.len();
                let mut k: usize = 0;
                while k < len
                    invariant
                        doc.is_node(n),
                        n == Node::Element(h),
                        h.index < doc.arena@.len(),
                        len == doc.arena@[h.index as int].children@.len(),
                        0 <= k <= len,
                        out@.len() == k,
                        forall|j: int| 0 <= j < k ==> out@[j] == doc.kids(n)[j],
                    decreases len - k,
                {
                    out.push(doc.arena[h.index].children[k].to_node());
                    k = k + 1;
                }
                proof {
                    assert(out@ =~= doc.kids(n));
                }
            },
            _ => {
                proof {
                    assert(out@ =~= doc.kids(n));
                }
            },
        }
        out
    }

    /// The siblings that precede this node in its parent's child list,
    /// nearest sibling first (reverse document order). The root and
    /// attributes never report siblings.
    pub fn preceding_siblings(&self, doc: &Document) -> (r: Vec<Node>)
        requires
            doc.wf(),
        ensures
            (*self is Root || *self is Attribute || doc.parent_of(*self) is None) ==> r@
                == Seq::<Node>::empty(),
            (!(*self is Root || *self is Attribute) && doc.parent_of(*self) is Some) ==> {
                let p = doc.parent_of(*self)->0;
                exists|k: int|
                    0 <= k < doc.kids(p).len() && doc.kids(p)[k] == *self && r@ == doc.kids(
                        p,
                    ).subrange(0, k).reverse()
            },
    {
        let n = *self;
        let mut out: Vec<Node> = Vec::new();
        match n {
            Node::Root(_) => out,
            Node::Attribute(_) => out,
            _ => {
                let p = match self.parent(doc) {
                    Some(p) => p,
                    None => {
                        return out;
                    },
                };
                let sibs = p.children(doc);
                let k = match crate::node::position_of(&sibs, n) {
                    Some(k) => k,
                    None => {
                        proof {
                            assert(doc.kids(p).contains(n));
                        }
                        return out;
                    },
                };
                let mut j: usize = k;
                while j > 0
                    invariant
                        0 <= j <= k < sibs@.len(),
                        sibs@ == doc.kids(p),
                        out@ == doc.kids(p).subrange(j as int, k as int).reverse(),
                    decreases j,
                {
                    j = j - 1;
                    out.push(sibs[j]);
                    proof {
                        assert(out@ =~= doc.kids(p).subrange(j as int, k as int).reverse());
                    }
                }
                proof {
                    assert(out@ == doc.kids(p).subrange(0, k as int).reverse());
                }
                out
            },
        }
    }

    /// The siblings that follow this node in its parent's child list, in
    /// document order. The root and attributes never report siblings.
    pub fn following_siblings(&self, doc: &Document) -> (r: Vec<Node>)
        requires
            doc.wf(),
        ensures
            (*self is Root || *self is Attribute || doc.parent_of(*self) is None) ==> r@
                == Seq::<Node>::empty(),
            (!(*self is Root || *self is Attribute) && doc.parent_of(*self) is Some) ==> {
                let p = doc.parent_of(*self)->0;
                exists|k: int|
                    0 <= k < doc.kids(p).len() && doc.kids(p)[k] == *self && r@ == doc.kids(
                        p,
                    ).subrange(k + 1, doc.kids(p).len() as int)
            },
    {
        let n = *self;
        let mut out: Vec<Node> = Vec::new();
        match n {
            Node::Root(_) => out,
            Node::Attribute(_) => out,
            _ => {
                let p = match self.parent(doc) {
                    Some(p) => p,
                    None => {
                        return out;
                    },
                };
                let sibs = p.children(doc);
                let k = match crate::node::position_of(&sibs, n) {
                    Some(k) => k,
                    None => {
                        proof {
                            assert(doc.kids(p).contains(n));
                        }
                        return out;
                    },
                };
                let slen = sibs.len();
                let mut j: usize = k + 1;
                while j < slen
                    invariant
                        k < j <= sibs@.len(),
                        slen == sibs@.len(),
                        sibs@ == doc.kids(p),
                        out@ == doc.kids(p).subrange(k as int + 1, j as int),
                    decreases sibs@.len() - j,
                {
                    out.push(sibs[j]);
                    j = j + 1;
                    proof {
                        assert(out@ =~= doc.kids(p).subrange(k as int + 1, j as int));
                    }
                }
                out
            },
        }
    }
}

/// Mutable access to one arena slot.
fn node_mut(arena: &mut Vec<NodeData>, i: usize) -> (nd: &mut NodeData)
    requires
        i < old(arena).len(),
    ensures
        *nd == old(arena)@[i as int],
        final(arena)@ == old(arena)@.update(i as int, *final(nd)),
{
    &mut arena[i]
}

/// Mapping a pushed child list to unified handles pushes the child's handle.
proof fn lemma_map_push_child_of_root(s: Seq<ChildOfRoot>, x: ChildOfRoot)
    ensures
        (s.push(x)).map_values(|c: ChildOfRoot| c.node_view()) == s.map_values(
            |c: ChildOfRoot| c.node_view(),
        ).push(x.node_view()),
{
    assert((s.push(x)).map_values(|c: ChildOfRoot| c.node_view()) =~= s.map_values(
        |c: ChildOfRoot| c.node_view(),
    ).push(x.node_view()));
}

/// Mapping a pushed child list to unified handles pushes the child's handle.
proof fn lemma_map_push_child_of_element(s: Seq<ChildOfElement>, x: ChildOfElement)
    ensures
        (s.push(x)).map_values(|c: ChildOfElement| c.node_view()) == s.map_values(
            |c: ChildOfElement| c.node_view(),
        ).push(x.node_view()),
{
    assert((s.push(x)).map_values(|c: ChildOfElement| c.node_view()) =~= s.map_values(
        |c: ChildOfElement| c.node_view(),
    ).push(x.node_view()));
}

/// Mapping a pushed attribute list to unified handles pushes the handle.
proof fn lemma_map_push_attribute(s: Seq<Attribute>, x: Attribute)
    ensures
        (s.push(x)).map_values(|a: Attribute| Node::Attribute(a)) == s.map_values(
            |a: Attribute| Node::Attribute(a),
        ).push(Node::Attribute(x)),
{
    assert((s.push(x)).map_values(|a: Attribute| Node::Attribute(a)) =~= s.map_values(
        |a: Attribute| Node::Attribute(a),
    ).push(Node::Attribute(x)));
}

/// One detached node was hung below an attached parent and nothing else
/// moved: well-formedness carries over, and the accessor-level description
/// in [`Document::append_post`] holds.
proof fn lemma_append(prev: Document, cur: Document, pnode: Node, cnode: Node, ci: int)
    requires
        prev.wf(),
        prev.in_tree(pnode),
        pnode is Root || pnode is Element,
        prev.is_node(cnode),
        !(cnode is Root),
        !(cnode is Attribute),
        prev.parent_of(cnode) is None,
        cur.id == prev.id,
        cur.attached@ == prev.attached@ + 1,
        cur.arena@.len() == prev.arena@.len(),
        ci == prev.slot(cnode),
        cur.arena@[ci].payload == prev.arena@[ci].payload,
        cur.arena@[ci].children == prev.arena@[ci].children,
        cur.arena@[ci].attributes == prev.arena@[ci].attributes,
        cur.arena@[ci].parent is Some,
        (cur.arena@[ci].parent->0).node_view() == pnode,
        cur.arena@[ci].depth@ == prev.depth_of(pnode) + 1,
        pnode is Root ==> cur.root_children@.map_values(|c: ChildOfRoot| c.node_view())
            == prev.root_children@.map_values(|c: ChildOfRoot| c.node_view()).push(cnode),
        pnode is Root ==> forall|j: int|
            0 <= j < prev.arena@.len() && j != ci ==> cur.arena@[j] == prev.arena@[j],
        pnode is Element ==> {
            let pi = prev.slot(pnode);
            &&& cur.root_children@ == prev.root_children@
            &&& cur.arena@[pi].children@.map_values(|c: ChildOfElement| c.node_view())
                == prev.arena@[pi].children@.map_values(|c: ChildOfElement| c.node_view()).push(
                cnode,
            )
            &&& cur.arena@[pi].payload == prev.arena@[pi].payload
            &&& cur.arena@[pi].attributes == prev.arena@[pi].attributes
            &&& cur.arena@[pi].parent == prev.arena@[pi].parent
            &&& cur.arena@[pi].depth == prev.arena@[pi].depth
            &&& forall|j: int|
                0 <= j < prev.arena@.len() && j != ci && j != pi ==> cur.arena@[j]
                    == prev.arena@[j]
        },
    ensures
        cur.wf(),
        cur.append_post(prev, pnode, cnode),
{
    let pi: int = if pnode is Element {
        prev.slot(pnode)
    } else {
        -1
    };
    assert(pnode is Element ==> pi != ci);
    // frame facts, node by node
    assert forall|m: Node| #[trigger] cur.is_node(m) == prev.is_node(m) by {
        if !(m is Root) && (cur.slot(m) == ci || cur.slot(m) == pi) {
            assert(cur.arena@[cur.slot(m)].payload == prev.arena@[cur.slot(m)].payload);
        }
    }
    assert(cur.root_node() == prev.root_node());
    assert forall|m: Node| m != pnode implies #[trigger] cur.kids(m) == prev.kids(m) by {
        if cur.is_node(m) {
            if m is Root {
                assert(m == prev.root_node());
                assert(!(pnode is Element) ==> m == pnode);
                assert(cur.kids(m) == prev.kids(m));
            } else if m is Element {
                assert(cur.slot(m) != pi);
                assert(cur.arena@[cur.slot(m)].children == prev.arena@[cur.slot(m)].children);
                assert(cur.kids(m) == prev.kids(m));
            }
        } else {
            assert(cur.kids(m) =~= prev.kids(m));
        }
    }
    assert(cur.kids(pnode) == prev.kids(pnode).push(cnode));
    assert forall|m: Node| #[trigger] cur.attr_seq(m) == prev.attr_seq(m) by {
        if cur.is_node(m) && m is Element {
            assert(cur.arena@[cur.slot(m)].attributes == prev.arena@[cur.slot(m)].attributes);
        } else {
            assert(cur.attr_seq(m) =~= prev.attr_seq(m));
        }
    }
    assert forall|m: Node| m != cnode implies #[trigger] cur.parent_of(m) == prev.parent_of(m) by {
        if cur.is_node(m) && !(m is Root) {
            if cur.slot(m) == ci {
                assert(m == cnode || !cur.is_node(m));
            } else {
                assert(cur.arena@[cur.slot(m)].parent == prev.arena@[cur.slot(m)].parent);
                assert(cur.arena@[cur.slot(m)].payload == prev.arena@[cur.slot(m)].payload);
            }
        }
    }
    assert(cur.parent_of(cnode) == Some(pnode));
    assert forall|m: Node| !(m is Attribute) && m != cnode implies #[trigger] cur.depth_of(m)
        == prev.depth_of(m) by {}
    assert(cur.depth_of(cnode) == prev.depth_of(pnode) + 1);
    assert(cur.in_tree(cnode));
    assert forall|m: Node| !(m is Attribute) && m != cnode implies #[trigger] cur.in_tree(m)
        == prev.in_tree(m) by {}
    assert(cur.depth_of(pnode) == prev.depth_of(pnode));
    // attributes: those owned by the child enter the tree, the rest keep
    // their standing
    assert forall|m: Node| m is Attribute && cur.is_node(m) implies #[trigger] cur.parent_of(m)
        == prev.parent_of(m) && (if prev.parent_of(m) == Some(cnode) {
        cur.in_tree(m) && cur.depth_of(m) == cur.depth_of(cnode) + 1
    } else {
        cur.in_tree(m) == prev.in_tree(m) && cur.depth_of(m) == prev.depth_of(m)
    }) by {
        assert(prev.is_node(m));
        assert(prev.parent_of(m) is Some);
        let ow = prev.parent_of(m)->0;
        assert(prev.is_node(ow) && ow is Element);
        if ow == cnode {
        } else {
            assert(prev.slot(ow) != ci);
            assert(cur.arena@[prev.slot(ow)].parent == prev.arena@[prev.slot(ow)].parent);
            assert(cur.arena@[prev.slot(ow)].depth == prev.arena@[prev.slot(ow)].depth);
        }
    }
    assert forall|m: Node| #[trigger] cur.name_view(m) == prev.name_view(m) && #[trigger]
        cur.value_view(m) == prev.value_view(m) by {
        if cur.is_node(m) && !(m is Root) {
            assert(cur.arena@[cur.slot(m)].payload == prev.arena@[cur.slot(m)].payload);
        }
    }
    // attributes of the child are exactly the nodes whose parent is the child
    assert forall|a: Node| prev.attr_seq(cnode).contains(a) implies prev.parent_of(a) == Some(
        cnode,
    ) && a is Attribute && prev.is_node(a) by {}
    // well-formedness, clause by clause
    assert forall|n: Node| n is Root && #[trigger] cur.is_node(n) implies n == cur.root_node()
        by {}
    assert forall|n: Node, i: int| cur.in_tree(n) && 0 <= i < cur.kids(n).len() implies {
        let c = #[trigger] cur.kids(n)[i];
        &&& c.doc_id() == cur.id_spec()
        &&& cur.is_node(c)
        &&& cur.in_tree(c)
        &&& !(c is Root)
        &&& !(c is Attribute)
        &&& cur.parent_of(c) == Some(n)
        &&& cur.depth_of(c) == cur.depth_of(n) + 1
    } by {
        if n == pnode {
            if i < prev.kids(pnode).len() {
                assert(cur.kids(n)[i] == prev.kids(pnode)[i]);
                assert(prev.kids(pnode)[i] != cnode);
            } else {
                assert(cur.kids(n)[i] == cnode);
            }
        } else {
            assert(cur.kids(n) == prev.kids(n));
            if n is Attribute {
                assert(prev.kids(n) == Seq::<Node>::empty());
            } else {
                assert(prev.in_tree(n) || n == cnode);
                if n == cnode {
                    assert(prev.kids(cnode) == Seq::<Node>::empty());
                } else {
                    assert(prev.kids(n)[i] != cnode);
                }
            }
        }
    }
    assert forall|n: Node, i: int, j: int| cur.in_tree(n) && 0 <= i < j < cur.kids(n).len()
        implies #[trigger] cur.kids(n)[i] != #[trigger] cur.kids(n)[j] by {
        if n == pnode {
            if j == prev.kids(pnode).len() {
                assert(cur.kids(n)[i] == prev.kids(pnode)[i]);
                assert(prev.kids(pnode)[i] != cnode);
            }
        } else {
            assert(cur.kids(n) == prev.kids(n));
            if n != cnode && !(n is Attribute) {
                assert(prev.in_tree(n));
            } else {
                assert(prev.kids(n) == Seq::<Node>::empty());
            }
        }
    }
    assert forall|n: Node| #[trigger] cur.parent_of(n) is Some && !(n is Attribute) implies {
        let p = cur.parent_of(n)->0;
        &&& cur.is_node(p)
        &&& cur.in_tree(p)
        &&& (p is Root || p is Element)
        &&& cur.in_tree(n)
        &&& cur.kids(p).contains(n)
    } by {
        if n == cnode {
            assert(cur.kids(pnode) == prev.kids(pnode).push(cnode));
            assert(cur.kids(pnode)[prev.kids(pnode).len() as int] == cnode);
            assert(cur.kids(pnode).contains(cnode));
        } else {
            assert(prev.parent_of(n) is Some);
            let p = prev.parent_of(n)->0;
            assert(prev.kids(p).contains(n));
            let k = choose|k: int| 0 <= k < prev.kids(p).len() && prev.kids(p)[k] == n;
            if p == pnode {
                assert(cur.kids(p)[k] == n);
            } else {
                assert(cur.kids(p) == prev.kids(p));
            }
            assert(cur.kids(p).contains(n));
        }
    }
    assert forall|n: Node| cur.is_node(n) && !cur.in_tree(n) implies #[trigger] cur.kids(n)
        == Seq::<Node>::empty() by {
        if !(n is Attribute) {
            assert(!prev.in_tree(n) && n != cnode);
            assert(n != pnode);
        } else {
            assert(cur.kids(n) == prev.kids(n));
        }
    }
    assert forall|n: Node| n is Attribute && #[trigger] cur.is_node(n) implies {
        let p = cur.parent_of(n)->0;
        &&& cur.parent_of(n) is Some
        &&& p is Element
        &&& cur.is_node(p)
        &&& cur.attr_seq(p).contains(n)
        &&& cur.depth_of(n) == cur.depth_of(p) + 1
        &&& (cur.in_tree(n) <==> cur.in_tree(p))
    } by {
        assert(prev.is_node(n));
        let p = prev.parent_of(n)->0;
        assert(prev.attr_seq(p).contains(n));
        assert(cur.attr_seq(p) == prev.attr_seq(p));
        if p == cnode {
            assert(cur.in_tree(n) && cur.in_tree(cnode));
        } else {
            assert(p != pnode || p == pnode);
            assert(cur.depth_of(p) == prev.depth_of(p));
            assert(cur.in_tree(p) == prev.in_tree(p));
        }
    }
    assert forall|n: Node, i: int| cur.is_node(n) && 0 <= i < cur.attr_seq(n).len() implies {
        let a = #[trigger] cur.attr_seq(n)[i];
        &&& a is Attribute
        &&& a.doc_id() == cur.id_spec()
        &&& cur.is_node(a)
        &&& cur.parent_of(a) == Some(n)
    } by {
        assert(cur.attr_seq(n) == prev.attr_seq(n));
        assert(prev.attr_seq(n)[i] is Attribute);
    }
    assert forall|n: Node, i: int, j: int| cur.is_node(n) && 0 <= i < j < cur.attr_seq(n).len()
        implies #[trigger] cur.attr_seq(n)[i] != #[trigger] cur.attr_seq(n)[j] by {
        assert(cur.attr_seq(n) == prev.attr_seq(n));
    }
    assert forall|n: Node| #[trigger] cur.in_tree(n) implies cur.depth_of(n)
        <= cur.attached_count() by {
        if n is Attribute {
            let p = cur.parent_of(n)->0;
            assert(cur.in_tree(p));
        }
    }
    assert forall|n: Node| #[trigger] cur.in_tree(n) && !(n is Attribute) implies cur.depth_of(n)
        < cur.attached_count() by {}
    assert forall|n: Node| !cur.is_node(n) implies #[trigger] cur.kids(n) == Seq::<
        Node,
    >::empty() && cur.attr_seq(n) == Seq::<Node>::empty() && cur.parent_of(n) is None
        && !cur.in_tree(n) by {
        assert(cur.kids(n) == prev.kids(n));
        assert(n != cnode && n != pnode);
    }
    assert(cur.wf());
    assert forall|m: Node| m != pnode && m != cnode && !prev.attr_seq(cnode).contains(m) implies
        cur.node_unchanged(prev, m) by {
        if m is Attribute && prev.is_node(m) {
            if prev.parent_of(m) == Some(cnode) {
                assert(prev.attr_seq(cnode).contains(m));
            }
        }
    }
    assert forall|a: Node| prev.attr_seq(cnode).contains(a) implies #[trigger] cur.in_tree(a)
        && cur.depth_of(a) == cur.depth_of(cnode) + 1 && cur.parent_of(a) == prev.parent_of(a)
        && cur.is_node(a) && cur.name_view(a) == prev.name_view(a) && cur.value_view(a)
        == prev.value_view(a) by {
        assert(prev.parent_of(a) == Some(cnode));
    }
}

/// Only the value inside one attribute slot changed, with the name kept
/// letter for letter: every structural accessor reads as before, so
/// well-formedness carries over.
proof fn lemma_replace_attr_value(
    prev: Document,
    cur: Document,
    element: Element,
    a: Attribute,
    name: Seq<char>,
    value: Seq<char>,
)
    requires
        prev.wf(),
        prev.is_node(Node::Element(element)),
        prev.is_node(Node::Attribute(a)),
        prev.parent_of(Node::Attribute(a)) == Some(Node::Element(element)),
        prev.name_view(Node::Attribute(a)) == Some(name),
        cur.id == prev.id,
        cur.attached@ == prev.attached@,
        cur.root_children@ == prev.root_children@,
        cur.arena@.len() == prev.arena@.len(),
        forall|j: int|
            0 <= j < prev.arena@.len() && j != a.index ==> cur.arena@[j] == prev.arena@[j],
        cur.arena@[a.index as int].parent == prev.arena@[a.index as int].parent,
        cur.arena@[a.index as int].children == prev.arena@[a.index as int].children,
        cur.arena@[a.index as int].attributes == prev.arena@[a.index as int].attributes,
        cur.arena@[a.index as int].depth == prev.arena@[a.index as int].depth,
        (match cur.arena@[a.index as int].payload {
            Payload::Attribute { name: nm, value: vl, owner } => nm@ == name && vl@ == value
                && owner == element,
            _ => false,
        }),
    ensures
        cur.wf(),
        cur.name_view(Node::Attribute(a)) == Some(name),
        cur.value_view(Node::Attribute(a)) == Some(value),
        forall|m: Node|
            #![trigger cur.is_node(m)]
            #![trigger prev.is_node(m)]
            m != Node::Attribute(a) ==> cur.is_node(m) == prev.is_node(m),
        forall|m: Node|
            #![trigger cur.parent_of(m)]
            #![trigger prev.parent_of(m)]
            m != Node::Attribute(a) ==> cur.parent_of(m) == prev.parent_of(m),
        forall|m: Node|
            #![trigger cur.kids(m)]
            #![trigger prev.kids(m)]
            m != Node::Attribute(a) ==> cur.kids(m) == prev.kids(m),
        forall|m: Node|
            #![trigger cur.attr_seq(m)]
            #![trigger prev.attr_seq(m)]
            m != Node::Attribute(a) ==> cur.attr_seq(m) == prev.attr_seq(m),
        forall|m: Node|
            #![trigger cur.depth_of(m)]
            #![trigger prev.depth_of(m)]
            m != Node::Attribute(a) ==> cur.depth_of(m) == prev.depth_of(m),
        forall|m: Node|
            #![trigger cur.in_tree(m)]
            #![trigger prev.in_tree(m)]
            m != Node::Attribute(a) ==> cur.in_tree(m) == prev.in_tree(m),
        forall|m: Node|
            #![trigger cur.name_view(m)]
            #![trigger prev.name_view(m)]
            m != Node::Attribute(a) ==> cur.name_view(m) == prev.name_view(m),
        forall|m: Node|
            #![trigger cur.value_view(m)]
            #![trigger prev.value_view(m)]
            m != Node::Attribute(a) ==> cur.value_view(m) == prev.value_view(m),
        cur.is_node(Node::Attribute(a)) == prev.is_node(Node::Attribute(a)),
        cur.parent_of(Node::Attribute(a)) == prev.parent_of(Node::Attribute(a)),
        cur.kids(Node::Attribute(a)) == prev.kids(Node::Attribute(a)),
        cur.attr_seq(Node::Attribute(a)) == prev.attr_seq(Node::Attribute(a)),
        cur.depth_of(Node::Attribute(a)) == prev.depth_of(Node::Attribute(a)),
        cur.in_tree(Node::Attribute(a)) == prev.in_tree(Node::Attribute(a)),
{
    let ai = a.index as int;
    let an = Node::Attribute(a);
    assert(cur.root_node() == prev.root_node());
    assert forall|m: Node| #[trigger] cur.is_node(m) == prev.is_node(m) by {
        if !(m is Root) && cur.slot(m) == ai {
            assert(cur.arena@[ai].payload is Attribute && prev.arena@[ai].payload is Attribute);
        }
    }
    assert forall|m: Node| #[trigger] cur.kids(m) == prev.kids(m) by {
        if cur.is_node(m) && m is Element {
            assert(cur.slot(m) != ai);
        } else {
            assert(cur.kids(m) =~= prev.kids(m));
        }
    }
    assert forall|m: Node| #[trigger] cur.attr_seq(m) == prev.attr_seq(m) by {
        if cur.is_node(m) && m is Element {
            assert(cur.slot(m) != ai);
        } else {
            assert(cur.attr_seq(m) =~= prev.attr_seq(m));
        }
    }
    assert forall|m: Node| #[trigger] cur.parent_of(m) == prev.parent_of(m) by {
        if cur.is_node(m) && !(m is Root) && cur.slot(m) == ai {
            assert(m == an);
            assert(cur.parent_of(an) == Some(Node::Element(element)));
        }
    }
    assert forall|m: Node| #[trigger] cur.depth_of(m) == prev.depth_of(m) by {
        if cur.is_node(m) && m is Attribute {
            let ow = prev.parent_of(m)->0;
            assert(prev.is_node(ow));
            assert(cur.slot(ow) != ai);
        }
    }
    assert forall|m: Node| #[trigger] cur.in_tree(m) == prev.in_tree(m) by {
        if cur.is_node(m) && m is Attribute {
            let ow = prev.parent_of(m)->0;
            assert(prev.is_node(ow));
            assert(cur.slot(ow) != ai);
        }
    }
    assert forall|m: Node| m != an implies #[trigger] cur.name_view(m) == prev.name_view(m)
        && cur.value_view(m) == prev.value_view(m) by {
        if cur.is_node(m) && !(m is Root) {
            assert(cur.slot(m) != ai || m == an);
        }
    }
    lemma_frame_wf(prev, cur);
}

/// Every structural accessor of `cur` reads as in `prev`: well-formedness
/// carries over.
proof fn lemma_frame_wf(prev: Document, cur: Document)
    requires
        prev.wf(),
        cur.id_spec() == prev.id_spec(),
        cur.attached_count() == prev.attached_count(),
        cur.root_node() == prev.root_node(),
        forall|m: Node| #[trigger] cur.is_node(m) == prev.is_node(m),
        forall|m: Node| #[trigger] cur.kids(m) == prev.kids(m),
        forall|m: Node| #[trigger] cur.attr_seq(m) == prev.attr_seq(m),
        forall|m: Node| #[trigger] cur.parent_of(m) == prev.parent_of(m),
        forall|m: Node| #[trigger] cur.depth_of(m) == prev.depth_of(m),
        forall|m: Node| #[trigger] cur.in_tree(m) == prev.in_tree(m),
    ensures
        cur.wf(),
{
}

/// A fresh attribute slot was pushed onto the arena and hung at the end of
/// its owning element's attribute list; nothing else moved.
proof fn lemma_fresh_attr(prev: Document, cur: Document, element: Element, a: Attribute)
    requires
        prev.wf(),
        prev.is_node(Node::Element(element)),
        cur.id == prev.id,
        cur.attached@ == prev.attached@,
        cur.root_children@ == prev.root_children@,
        cur.arena@.len() == prev.arena@.len() + 1,
        a.doc == prev.id,
        a.index == prev.arena@.len(),
        cur.arena@[a.index as int].parent is None,
        cur.arena@[a.index as int].children@.len() == 0,
        cur.arena@[a.index as int].attributes@.len() == 0,
        (match cur.arena@[a.index as int].payload {
            Payload::Attribute { owner, .. } => owner == element,
            _ => false,
        }),
        cur.arena@[element.index as int].attributes@ == prev.arena@[element.index
            as int].attributes@.push(a),
        cur.arena@[element.index as int].payload == prev.arena@[element.index as int].payload,
        cur.arena@[element.index as int].parent == prev.arena@[element.index as int].parent,
        cur.arena@[element.index as int].children == prev.arena@[element.index as int].children,
        cur.arena@[element.index as int].depth == prev.arena@[element.index as int].depth,
        forall|j: int|
            0 <= j < prev.arena@.len() && j != element.index ==> cur.arena@[j] == prev.arena@[j],
    ensures
        cur.wf(),
        !prev.is_node(Node::Attribute(a)),
        cur.is_node(Node::Attribute(a)),
        cur.parent_of(Node::Attribute(a)) == Some(Node::Element(element)),
        cur.kids(Node::Attribute(a)) == Seq::<Node>::empty(),
        cur.attr_seq(Node::Attribute(a)) == Seq::<Node>::empty(),
        cur.attr_seq(Node::Element(element)) == prev.attr_seq(Node::Element(element)).push(
            Node::Attribute(a),
        ),
        cur.depth_of(Node::Attribute(a)) == cur.depth_of(Node::Element(element)) + 1,
        (cur.in_tree(Node::Attribute(a)) <==> cur.in_tree(Node::Element(element))),
        cur.kids(Node::Element(element)) == prev.kids(Node::Element(element)),
        cur.parent_of(Node::Element(element)) == prev.parent_of(Node::Element(element)),
        cur.depth_of(Node::Element(element)) == prev.depth_of(Node::Element(element)),
        cur.in_tree(Node::Element(element)) == prev.in_tree(Node::Element(element)),
        cur.name_view(Node::Element(element)) == prev.name_view(Node::Element(element)),
        cur.value_view(Node::Element(element)) == prev.value_view(Node::Element(element)),
        forall|m: Node|
            #![trigger cur.is_node(m)]
            #![trigger prev.is_node(m)]
            m != Node::Attribute(a) && m != Node::Element(element) ==> cur.is_node(m) == prev.is_node(m),
        forall|m: Node|
            #![trigger cur.parent_of(m)]
            #![trigger prev.parent_of(m)]
            m != Node::Attribute(a) && m != Node::Element(element) ==> cur.parent_of(m) == prev.parent_of(m),
        forall|m: Node|
            #![trigger cur.kids(m)]
            #![trigger prev.kids(m)]
            m != Node::Attribute(a) && m != Node::Element(element) ==> cur.kids(m) == prev.kids(m),
        forall|m: Node|
            #![trigger cur.attr_seq(m)]
            #![trigger prev.attr_seq(m)]
            m != Node::Attribute(a) && m != Node::Element(element) ==> cur.attr_seq(m) == prev.attr_seq(m),
        forall|m: Node|
            #![trigger cur.depth_of(m)]
            #![trigger prev.depth_of(m)]
            m != Node::Attribute(a) && m != Node::Element(element) ==> cur.depth_of(m) == prev.depth_of(m),
        forall|m: Node|
            #![trigger cur.in_tree(m)]
            #![trigger prev.in_tree(m)]
            m != Node::Attribute(a) && m != Node::Element(element) ==> cur.in_tree(m) == prev.in_tree(m),
        forall|m: Node|
            #![trigger cur.name_view(m)]
            #![trigger prev.name_view(m)]
            m != Node::Attribute(a) && m != Node::Element(element) ==> cur.name_view(m) == prev.name_view(m),
        forall|m: Node|
            #![trigger cur.value_view(m)]
            #![trigger prev.value_view(m)]
            m != Node::Attribute(a) && m != Node::Element(element) ==> cur.value_view(m) == prev.value_view(m),
{
    let ai = a.index as int;
    let ei = element.index as int;
    let an = Node::Attribute(a);
    let en = Node::Element(element);
    assert(ei < prev.arena@.len());
    assert(ai != ei);
    assert(cur.root_node() == prev.root_node());
    lemma_map_push_attribute(prev.arena@[ei].attributes@, a);
    assert(cur.attr_seq(en) == prev.attr_seq(en).push(an));
    assert(cur.kids(an) =~= Seq::<Node>::empty());
    assert(cur.attr_seq(an) =~= Seq::<Node>::empty());
    assert forall|m: Node| m != an implies #[trigger] cur.is_node(m) == prev.is_node(m) by {
        if !(m is Root) && cur.slot(m) == ai {
            assert(cur.arena@[ai].payload is Attribute);
        }
    }
    assert forall|m: Node| m != en implies #[trigger] cur.kids(m) == prev.kids(m) by {
        if cur.is_node(m) && m is Element {
            assert(cur.slot(m) != ai);
            assert(cur.arena@[cur.slot(m)].children == prev.arena@[cur.slot(m)].children);
        } else {
            assert(cur.kids(m) =~= prev.kids(m));
        }
    }
    assert(cur.kids(en) == prev.kids(en));
    assert forall|m: Node| m != en && m != an implies #[trigger] cur.attr_seq(m)
        == prev.attr_seq(m) by {
        if cur.is_node(m) && m is Element {
            assert(cur.slot(m) != ai && cur.slot(m) != ei);
            assert(cur.arena@[cur.slot(m)].attributes == prev.arena@[cur.slot(m)].attributes);
        } else {
            assert(cur.attr_seq(m) =~= prev.attr_seq(m));
        }
    }
    assert forall|m: Node| m != an implies #[trigger] cur.parent_of(m) == prev.parent_of(m) by {
        if cur.is_node(m) && !(m is Root) {
            assert(cur.slot(m) != ai);
            assert(cur.arena@[cur.slot(m)].parent == prev.arena@[cur.slot(m)].parent);
            assert(cur.arena@[cur.slot(m)].payload == prev.arena@[cur.slot(m)].payload);
        }
    }
    assert(cur.parent_of(an) == Some(en));
    assert forall|m: Node| m != an implies #[trigger] cur.depth_of(m) == prev.depth_of(m)
        && #[trigger] cur.in_tree(m) == prev.in_tree(m) by {
        if cur.is_node(m) && m is Attribute {
            let ow = prev.parent_of(m)->0;
            assert(prev.is_node(ow));
            assert(cur.slot(ow) != ai);
            assert(cur.arena@[cur.slot(ow)].parent == prev.arena@[cur.slot(ow)].parent);
            assert(cur.arena@[cur.slot(ow)].depth == prev.arena@[cur.slot(ow)].depth);
        }
    }
    assert forall|m: Node| m != an && m != en implies #[trigger] cur.name_view(m)
        == prev.name_view(m) && cur.value_view(m) == prev.value_view(m) by {
        if cur.is_node(m) && !(m is Root) {
            assert(cur.slot(m) != ai);
        }
    }
    assert(cur.name_view(en) == prev.name_view(en));
    assert(cur.value_view(en) == prev.value_view(en));
    assert(cur.depth_of(an) == cur.depth_of(en) + 1);
    assert(cur.in_tree(an) <==> cur.in_tree(en));
    // well-formedness
    assert forall|n: Node| n is Root && #[trigger] cur.is_node(n) implies n == cur.root_node()
        by {}
    assert forall|n: Node, i: int| cur.in_tree(n) && 0 <= i < cur.kids(n).len() implies {
        let c = #[trigger] cur.kids(n)[i];
        &&& c.doc_id() == cur.id_spec()
        &&& cur.is_node(c)
        &&& cur.in_tree(c)
        &&& !(c is Root)
        &&& !(c is Attribute)
        &&& cur.parent_of(c) == Some(n)
        &&& cur.depth_of(c) == cur.depth_of(n) + 1
    } by {
        assert(cur.kids(n) == prev.kids(n));
        assert(prev.in_tree(n));
        assert(prev.kids(n)[i] != an);
    }
    assert forall|n: Node, i: int, j: int| cur.in_tree(n) && 0 <= i < j < cur.kids(n).len()
        implies #[trigger] cur.kids(n)[i] != #[trigger] cur.kids(n)[j] by {
        assert(cur.kids(n) == prev.kids(n));
        assert(prev.in_tree(n));
    }
    assert forall|n: Node| #[trigger] cur.parent_of(n) is Some && !(n is Attribute) implies {
        let p = cur.parent_of(n)->0;
        &&& cur.is_node(p)
        &&& cur.in_tree(p)
        &&& (p is Root || p is Element)
        &&& cur.in_tree(n)
        &&& cur.kids(p).contains(n)
    } by {
        assert(prev.parent_of(n) is Some);
        let p = prev.parent_of(n)->0;
        assert(prev.kids(p).contains(n));
        assert(cur.kids(p) == prev.kids(p));
    }
    assert forall|n: Node| cur.is_node(n) && !cur.in_tree(n) implies #[trigger] cur.kids(n)
        == Seq::<Node>::empty() by {
        if n != an {
            assert(cur.kids(n) == prev.kids(n));
        }
    }
    assert forall|n: Node| n is Attribute && #[trigger] cur.is_node(n) implies {
        let p = cur.parent_of(n)->0;
        &&& cur.parent_of(n) is Some
        &&& p is Element
        &&& cur.is_node(p)
        &&& cur.attr_seq(p).contains(n)
        &&& cur.depth_of(n) == cur.depth_of(p) + 1
        &&& (cur.in_tree(n) <==> cur.in_tree(p))
    } by {
        if n == an {
            assert(cur.attr_seq(en)[prev.attr_seq(en).len() as int] == an);
            assert(cur.attr_seq(en).contains(an));
        } else {
            assert(prev.is_node(n));
            let p = prev.parent_of(n)->0;
            assert(prev.attr_seq(p).contains(n));
            if p == en {
                let k = choose|k: int|
                    0 <= k < prev.attr_seq(en).len() && prev.attr_seq(en)[k] == n;
                assert(cur.attr_seq(en)[k] == n);
                assert(cur.attr_seq(en).contains(n));
            } else {
                assert(cur.attr_seq(p) == prev.attr_seq(p));
            }
        }
    }
    assert forall|n: Node, i: int| cur.is_node(n) && 0 <= i < cur.attr_seq(n).len() implies {
        let x = #[trigger] cur.attr_seq(n)[i];
        &&& x is Attribute
        &&& x.doc_id() == cur.id_spec()
        &&& cur.is_node(x)
        &&& cur.parent_of(x) == Some(n)
    } by {
        if n == en && i == prev.attr_seq(en).len() {
            assert(cur.attr_seq(en)[i] == an);
        } else {
            assert(cur.attr_seq(n)[i] == prev.attr_seq(n)[i]);
            assert(prev.attr_seq(n)[i] != an);
        }
    }
    assert forall|n: Node, i: int, j: int| cur.is_node(n) && 0 <= i < j < cur.attr_seq(n).len()
        implies #[trigger] cur.attr_seq(n)[i] != #[trigger] cur.attr_seq(n)[j] by {
        if n == en && j == prev.attr_seq(en).len() {
            assert(cur.attr_seq(en)[i] == prev.attr_seq(en)[i]);
            assert(prev.is_node(prev.attr_seq(en)[i]));
            assert(prev.attr_seq(en)[i] != an);
        } else {
            assert(cur.attr_seq(n)[i] == prev.attr_seq(n)[i]);
            assert(cur.attr_seq(n)[j] == prev.attr_seq(n)[j]);
        }
    }
    assert forall|n: Node| #[trigger] cur.in_tree(n) implies cur.depth_of(n)
        <= cur.attached_count() by {
        if n == an {
            assert(cur.in_tree(en));
            assert(prev.in_tree(en));
            assert(prev.depth_of(en) < prev.attached_count());
        } else {
            assert(prev.in_tree(n));
            if n is Attribute {
                let p = prev.parent_of(n)->0;
                assert(prev.in_tree(p));
            }
        }
    }
    assert forall|n: Node| #[trigger] cur.in_tree(n) && !(n is Attribute) implies cur.depth_of(n)
        < cur.attached_count() by {
        assert(prev.in_tree(n));
    }
    assert forall|n: Node| !cur.is_node(n) implies #[trigger] cur.kids(n) == Seq::<
        Node,
    >::empty() && cur.attr_seq(n) == Seq::<Node>::empty() && cur.parent_of(n) is None
        && !cur.in_tree(n) by {
        assert(n != an && n != en);
        assert(cur.kids(n) == prev.kids(n));
        assert(cur.attr_seq(n) == prev.attr_seq(n));
    }
    assert(cur.wf());
}

/// A single detached, childless, attribute-free slot was pushed onto the
/// arena and nothing else moved: well-formedness carries over and every node
/// but the fresh one reads unchanged.
proof fn lemma_fresh_slot(prev: Document, cur: Document, fresh: Node)
    requires
        prev.wf(),
        !(fresh is Root),
        !(fresh is Attribute),
        fresh.doc_id() == prev.id_spec(),
        cur.id == prev.id,
        cur.attached@ == prev.attached@,
        cur.root_children@ == prev.root_children@,
        cur.arena@.len() == prev.arena@.len() + 1,
        forall|i: int| 0 <= i < prev.arena@.len() ==> cur.arena@[i] == prev.arena@[i],
        cur.slot(fresh) == prev.arena@.len(),
        cur.is_node(fresh),
        cur.arena@[prev.arena@.len() as int].parent is None,
        cur.arena@[prev.arena@.len() as int].children@.len() == 0,
        cur.arena@[prev.arena@.len() as int].attributes@.len() == 0,
    ensures
        cur.wf(),
        cur.fresh_node_post(prev, fresh),
{
    let len = prev.arena@.len() as int;
    assert(cur.root_node() == prev.root_node());
    assert(cur.kids(fresh) =~= Seq::<Node>::empty());
    assert(cur.attr_seq(fresh) =~= Seq::<Node>::empty());
    assert forall|m: Node| m != fresh implies cur.node_unchanged(prev, m) by {
        if !(m is Root) && cur.slot(m) == len && m.doc_id() == cur.id {
            // the new slot's payload kind picks out exactly the fresh handle
            assert(!cur.is_node(m));
            assert(!prev.is_node(m));
        }
        if prev.is_node(m) || cur.is_node(m) {
            if !(m is Root) {
                assert(cur.slot(m) < len ==> cur.arena@[cur.slot(m)] == prev.arena@[cur.slot(m)]);
            }
            if m is Attribute && prev.is_node(m) {
                // the owning element's slot is live in `prev`, so the ghost
                // depth read for the attribute is the same on both sides
                assert(prev.parent_of(m) is Some);
                let p = prev.parent_of(m)->0;
                assert(prev.is_node(p));
            }
            assert(cur.kids(m) =~= prev.kids(m));
            assert(cur.attr_seq(m) =~= prev.attr_seq(m));
        } else {
            assert(cur.kids(m) =~= prev.kids(m));
            assert(cur.attr_seq(m) =~= prev.attr_seq(m));
        }
    }
    assert forall|m: Node| m != fresh implies #[trigger] cur.is_node(m) == prev.is_node(m) by {
        assert(cur.node_unchanged(prev, m));
    }
    assert forall|m: Node| m != fresh implies #[trigger] cur.in_tree(m) == prev.in_tree(m) by {
        assert(cur.node_unchanged(prev, m));
    }
    assert forall|m: Node| m != fresh implies #[trigger] cur.kids(m) == prev.kids(m) by {
        assert(cur.node_unchanged(prev, m));
    }
    assert forall|m: Node| m != fresh implies #[trigger] cur.attr_seq(m) == prev.attr_seq(m) by {
        assert(cur.node_unchanged(prev, m));
    }
    assert forall|m: Node| m != fresh implies #[trigger] cur.parent_of(m) == prev.parent_of(m) by {
        assert(cur.node_unchanged(prev, m));
    }
    assert forall|m: Node| m != fresh implies #[trigger] cur.depth_of(m) == prev.depth_of(m) by {
        assert(cur.node_unchanged(prev, m));
    }
    assert(!cur.in_tree(fresh));
    assert(cur.parent_of(fresh) is None);
}

} // verus!
