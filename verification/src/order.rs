//! Document order.
//!
//! Document order is the total order induced by a pre-order depth-first
//! traversal of the tree, with each element's attributes placed immediately
//! after the element and before its children. [`Document::order`] is the
//! mathematical statement of that order; [`Document::in_document_order`]
//! computes it with an explicit stack and is proved to emit exactly it.

use vstd::prelude::*;
use vstd::seq_lib::lemma_flatten_concat;

use crate::dom::Document;
use crate::node::Node;

verus! {

impl Document {
    /// Pre-order sequence of the subtree rooted at `n`: the node itself,
    /// then its attributes (in reverse attribute-list order, as the
    /// stack-based traversal emits them), then each child's subtree in
    /// child order.
    pub open spec fn subtree_order(self, n: Node) -> Seq<Node>
        decreases self.attached_count() + 1 - self.depth_of(n), 1int, 0int,
            when self.wf() && self.in_tree(n)
    {
        seq![n] + self.attr_seq(n).reverse() + self.subtree_order_list(
            self.kids(n),
            self.depth_of(n) as int,
        )
    }

    /// Concatenation of the pre-order sequences of a list of sibling
    /// subtrees whose roots all sit at depth `d + 1`.
    pub open spec fn subtree_order_list(self, cs: Seq<Node>, d: int) -> Seq<Node>
        decreases self.attached_count() + 1 - d, 0int, cs.len(),
            when self.wf() && 0 <= d <= self.attached_count() && forall|i: int|
                0 <= i < cs.len() ==> self.in_tree(#[trigger] cs[i]) && self.depth_of(cs[i]) == d
                    + 1
    {
        if cs.len() == 0 {
            Seq::empty()
        } else {
            self.subtree_order(cs[0]) + self.subtree_order_list(cs.drop_first(), d)
        }
    }

    /// The document order of the whole tree: the pre-order sequence of the
    /// subtree rooted at the document root.
    pub open spec fn order(self) -> Seq<Node> {
        self.subtree_order(self.root_node())
    }

    /// Concatenation of the pre-order sequences of an arbitrary mix of
    /// nodes, as found on the traversal stack.
    spec fn order_concat(self, ss: Seq<Node>) -> Seq<Node> {
        ss.map_values(|n: Node| self.subtree_order(n)).flatten()
    }
}

/// `order_concat` distributes over concatenation of node sequences.
proof fn lemma_order_concat_add(doc: Document, a: Seq<Node>, b: Seq<Node>)
    ensures
        doc.order_concat(a + b) == doc.order_concat(a) + doc.order_concat(b),
{
    let f = |n: Node| doc.subtree_order(n);
    assert((a + b).map_values(f) =~= a.map_values(f) + b.map_values(f));
    lemma_flatten_concat(a.map_values(f), b.map_values(f));
    assert(doc.order_concat(a + b) =~= doc.order_concat(a) + doc.order_concat(b));
}

/// `order_concat` of a single node is that node's subtree order.
proof fn lemma_order_concat_singleton(doc: Document, n: Node)
    ensures
        doc.order_concat(seq![n]) == doc.subtree_order(n),
{
    let f = |n: Node| doc.subtree_order(n);
    let m = seq![n].map_values(f);
    assert(m.len() == 1);
    assert(m[0] == doc.subtree_order(n));
    m.lemma_flatten_singleton();
}

/// `order_concat` of the empty sequence is empty.
proof fn lemma_order_concat_empty(doc: Document)
    ensures
        doc.order_concat(Seq::<Node>::empty()) == Seq::<Node>::empty(),
{
    let f = |n: Node| doc.subtree_order(n);
    assert(Seq::<Node>::empty().map_values(f) =~= Seq::<Seq<Node>>::empty());
    assert(Seq::<Seq<Node>>::empty().flatten() =~= Seq::<Node>::empty());
}

/// An attribute has no attributes and no children, so its subtree order is
/// just the attribute itself.
proof fn lemma_attr_subtree_order(doc: Document, a: Node)
    requires
        doc.wf(),
        doc.in_tree(a),
        a is Attribute,
    ensures
        doc.subtree_order(a) == seq![a],
{
    assert(doc.attr_seq(a) == Seq::<Node>::empty());
    assert(doc.kids(a) == Seq::<Node>::empty());
    assert(doc.subtree_order_list(doc.kids(a), doc.depth_of(a) as int) == Seq::<Node>::empty());
    assert(doc.subtree_order(a) =~= seq![a]);
}

/// A sequence of in-tree attribute nodes is its own `order_concat`.
proof fn lemma_attr_nodes_plain(doc: Document, s: Seq<Node>)
    requires
        doc.wf(),
        forall|i: int| 0 <= i < s.len() ==> (#[trigger] s[i]) is Attribute && doc.in_tree(s[i]),
    ensures
        doc.order_concat(s) == s,
    decreases s.len(),
{
    let f = |n: Node| doc.subtree_order(n);
    if s.len() == 0 {
        lemma_order_concat_empty(doc);
        assert(doc.order_concat(s) =~= s);
    } else {
        lemma_attr_subtree_order(doc, s[0]);
        lemma_attr_nodes_plain(doc, s.drop_first());
        assert(s =~= seq![s[0]] + s.drop_first());
        lemma_order_concat_add(doc, seq![s[0]], s.drop_first());
        lemma_order_concat_singleton(doc, s[0]);
        assert(doc.order_concat(s) =~= s);
    }
}

/// The `order_concat` of a child list equals its recursive list form.
proof fn lemma_list_is_concat(doc: Document, cs: Seq<Node>, d: int)
    requires
        doc.wf(),
        0 <= d <= doc.attached_count(),
        forall|i: int|
            0 <= i < cs.len() ==> doc.in_tree(#[trigger] cs[i]) && doc.depth_of(cs[i]) == d + 1,
    ensures
        doc.subtree_order_list(cs, d) == doc.order_concat(cs),
    decreases cs.len(),
{
    if cs.len() == 0 {
        lemma_order_concat_empty(doc);
    } else {
        assert(forall|i: int|
            0 <= i < cs.drop_first().len() ==> doc.in_tree(#[trigger] cs.drop_first()[i])
                && doc.depth_of(cs.drop_first()[i]) == d + 1);
        lemma_list_is_concat(doc, cs.drop_first(), d);
        assert(cs =~= seq![cs[0]] + cs.drop_first());
        lemma_order_concat_add(doc, seq![cs[0]], cs.drop_first());
        lemma_order_concat_singleton(doc, cs[0]);
    }
}

/// Whatever the subtree order of `cs[k]` holds, the list order of `cs`
/// holds too.
proof fn lemma_list_contains(doc: Document, cs: Seq<Node>, d: int, k: int, x: Node)
    requires
        doc.wf(),
        0 <= d <= doc.attached_count(),
        forall|i: int|
            0 <= i < cs.len() ==> doc.in_tree(#[trigger] cs[i]) && doc.depth_of(cs[i]) == d + 1,
        0 <= k < cs.len(),
        doc.subtree_order(cs[k]).contains(x),
    ensures
        doc.subtree_order_list(cs, d).contains(x),
    decreases k,
{
    let head = doc.subtree_order(cs[0]);
    let rest = doc.subtree_order_list(cs.drop_first(), d);
    assert(doc.subtree_order_list(cs, d) == head + rest);
    if k == 0 {
        let i = choose|i: int| 0 <= i < head.len() && head[i] == x;
        assert((head + rest)[i] == x);
    } else {
        assert(forall|i: int|
            0 <= i < cs.drop_first().len() ==> doc.in_tree(#[trigger] cs.drop_first()[i])
                && doc.depth_of(cs.drop_first()[i]) == d + 1);
        assert(cs.drop_first()[k - 1] == cs[k]);
        lemma_list_contains(doc, cs.drop_first(), d, k - 1, x);
        let i = choose|i: int| 0 <= i < rest.len() && rest[i] == x;
        assert((head + rest)[head.len() + i] == x);
    }
}

/// Everything inside the subtree order of an attached non-attribute node
/// shows up in the document order.
proof fn lemma_subtree_in_order(doc: Document, p: Node, x: Node)
    requires
        doc.wf(),
        doc.in_tree(p),
        !(p is Attribute),
        doc.subtree_order(p).contains(x),
    ensures
        doc.order().contains(x),
    decreases doc.depth_of(p),
{
    if p is Root {
        assert(p == doc.root_node());
    } else {
        assert(doc.parent_of(p) is Some);
        let q = doc.parent_of(p)->0;
        assert(doc.in_tree(q) && doc.kids(q).contains(p));
        let k = choose|k: int| 0 <= k < doc.kids(q).len() && doc.kids(q)[k] == p;
        assert(doc.depth_of(p) == doc.depth_of(q) + 1);
        lemma_list_contains(doc, doc.kids(q), doc.depth_of(q) as int, k, x);
        let lst = doc.subtree_order_list(doc.kids(q), doc.depth_of(q) as int);
        let pre = seq![q] + doc.attr_seq(q).reverse();
        assert(doc.subtree_order(q) == pre + lst);
        let i = choose|i: int| 0 <= i < lst.len() && lst[i] == x;
        assert((pre + lst)[pre.len() + i] == x);
        assert(doc.subtree_order(q).contains(x));
        lemma_subtree_in_order(doc, q, x);
    }
}

/// One traversal step: popping `n` and pushing its children reversed and
/// then its attributes keeps the traversal invariant, since the stack
/// suffix reads as exactly the subtree order of `n`.
proof fn lemma_step(
    doc: Document,
    n: Node,
    visited0: Seq<Node>,
    base: Seq<Node>,
    kids_v: Seq<Node>,
    attr_nodes: Seq<Node>,
)
    requires
        doc.wf(),
        doc.in_tree(n),
        kids_v == doc.kids(n),
        attr_nodes == doc.attr_seq(n),
        doc.order() == visited0 + doc.order_concat(seq![n] + base.reverse()),
    ensures
        doc.order() == visited0.push(n) + doc.order_concat(
            (base + kids_v.reverse() + attr_nodes).reverse(),
        ),
        forall|i: int| 0 <= i < kids_v.len() ==> doc.in_tree(#[trigger] kids_v[i]),
        forall|i: int| 0 <= i < attr_nodes.len() ==> doc.in_tree(#[trigger] attr_nodes[i]),
{
    let d = doc.depth_of(n) as int;
    let lst = doc.subtree_order_list(doc.kids(n), d);
    assert forall|i: int| 0 <= i < kids_v.len() implies doc.in_tree(#[trigger] kids_v[i])
        && doc.depth_of(kids_v[i]) == d + 1 by {
        assert(doc.kids(n)[i] == kids_v[i]);
    }
    assert forall|i: int| 0 <= i < attr_nodes.len() implies (#[trigger] attr_nodes[i])
        is Attribute && doc.in_tree(attr_nodes[i]) by {
        assert(doc.attr_seq(n)[i] == attr_nodes[i]);
        let p = doc.parent_of(attr_nodes[i])->0;
        assert(p == n);
    }
    lemma_list_is_concat(doc, doc.kids(n), d);
    assert forall|q: int| 0 <= q < attr_nodes.reverse().len() implies (
    #[trigger] attr_nodes.reverse()[q]) is Attribute && doc.in_tree(attr_nodes.reverse()[q]) by {
        assert(attr_nodes.reverse()[q] == attr_nodes[attr_nodes.len() - 1 - q]);
    }
    lemma_attr_nodes_plain(doc, attr_nodes.reverse());
    assert(doc.subtree_order(n) == seq![n] + attr_nodes.reverse() + lst);
    let ns = (base + kids_v.reverse() + attr_nodes).reverse();
    assert(ns =~= attr_nodes.reverse() + kids_v + base.reverse());
    lemma_order_concat_add(doc, attr_nodes.reverse() + kids_v, base.reverse());
    lemma_order_concat_add(doc, attr_nodes.reverse(), kids_v);
    lemma_order_concat_add(doc, seq![n], base.reverse());
    lemma_order_concat_singleton(doc, n);
    assert(visited0.push(n) + doc.order_concat(ns) =~= visited0 + doc.order_concat(
        seq![n] + base.reverse(),
    ));
}

impl Document {
    /// Every node of the tree — attributes of attached elements included —
    /// occurs in the document order.
    pub proof fn lemma_in_tree_in_order(self, n: Node)
        requires
            self.wf(),
            self.in_tree(n),
        ensures
            self.order().contains(n),
    {
        if n is Root {
            assert(n == self.root_node());
            assert(self.subtree_order(n)[0] == n);
        } else if n is Attribute {
            let p = self.parent_of(n)->0;
            assert(self.attr_seq(p).contains(n));
            assert(self.in_tree(p));
            let rev = self.attr_seq(p).reverse();
            let k = choose|k: int| 0 <= k < self.attr_seq(p).len() && self.attr_seq(p)[k] == n;
            assert(rev[self.attr_seq(p).len() - 1 - k] == n);
            assert(rev.contains(n));
            let pre = seq![p] + rev;
            let i = choose|i: int| 0 <= i < rev.len() && rev[i] == n;
            assert(pre[1 + i] == n);
            let lst = self.subtree_order_list(self.kids(p), self.depth_of(p) as int);
            assert(self.subtree_order(p) == pre + lst);
            assert((pre + lst)[1 + i] == n);
            assert(self.subtree_order(p).contains(n));
            lemma_subtree_in_order(self, p, n);
        } else {
            let p = self.parent_of(n)->0;
            assert(self.in_tree(p) && self.kids(p).contains(n));
            let k = choose|k: int| 0 <= k < self.kids(p).len() && self.kids(p)[k] == n;
            assert(self.subtree_order(n)[0] == n);
            lemma_list_contains(self, self.kids(p), self.depth_of(p) as int, k, n);
            let lst = self.subtree_order_list(self.kids(p), self.depth_of(p) as int);
            let pre = seq![p] + self.attr_seq(p).reverse();
            assert(self.subtree_order(p) == pre + lst);
            let i = choose|i: int| 0 <= i < lst.len() && lst[i] == n;
            assert((pre + lst)[pre.len() + i] == n);
            assert(self.subtree_order(p).contains(n));
            lemma_subtree_in_order(self, p, n);
        }
    }

    /// The full document order, computed afresh by one pre-order
    /// depth-first traversal with an explicit stack: pop a node, emit it,
    /// push its children in reverse order, then — for an element — push its
    /// attributes, so that they are emitted right after the element and
    /// before any child.
    #[verifier::rlimit(100)]
    pub fn in_document_order(&self) -> (r: Vec<Node>)
        requires
            self.wf(),
        ensures
            r@ == self.order(),
    {
        let mut visited: Vec<Node> = Vec::new();
        let mut stack: Vec<Node> = Vec::new();
        let root = self.root();
        stack.push(Node::Root(root));
        proof {
            assert(stack@.reverse() =~= seq![self.root_node()]);
            lemma_order_concat_singleton(*self, self.root_node());
            assert(visited@ + self.order_concat(stack@.reverse()) =~= self.order());
        }
        while stack.len() > 0
            invariant
                self.wf(),
                forall|i: int| 0 <= i < stack@.len() ==> self.in_tree(#[trigger] stack@[i]),
                self.order() == visited@ + self.order_concat(stack@.reverse()),
            decreases self.order().len() - visited@.len(),
        {
            let ghost pre_stack = stack@;
            let ghost visited0 = visited@;
            let n = stack.pop().unwrap();
            visited.push(n);
            let ghost base = stack@;
            let kids_vec = n.children(self);
            let klen = kids_vec.len();
            let mut i: usize = klen;
            while i > 0
                invariant
                    0 <= i <= klen,
                    klen == kids_vec@.len(),
                    stack@ == base + kids_vec@.subrange(i as int, klen as int).reverse(),
                decreases i,
            {
                i = i - 1;
                stack.push(kids_vec[i]);
                proof {
                    assert(stack@ =~= base + kids_vec@.subrange(i as int, klen as int).reverse());
                }
            }
            proof {
                assert(kids_vec@.subrange(0, klen as int) =~= kids_vec@);
                assert(stack@ == base + kids_vec@.reverse());
            }
            let ghost attr_nodes = self.attr_seq(n);
            if let Node::Element(e) = n {
                let attrs = self.attributes(e);
                let ghost base2 = stack@;
                let alen = attrs.len();
                let mut j: usize = 0;
                while j < alen
                    invariant
                        0 <= j <= alen,
                        alen == attrs@.len(),
                        attr_nodes == attrs@.map_values(
                            |x: crate::node::Attribute| Node::Attribute(x),
                        ),
                        stack@ == base2 + attr_nodes.subrange(0, j as int),
                    decreases alen - j,
                {
                    stack.push(Node::Attribute(attrs[j]));
                    j = j + 1;
                    proof {
                        assert(stack@ =~= base2 + attr_nodes.subrange(0, j as int));
                    }
                }
                proof {
                    assert(attr_nodes.subrange(0, alen as int) =~= attr_nodes);
                    assert(stack@ == base + kids_vec@.reverse() + attr_nodes);
                }
            } else {
                proof {
                    assert(self.attr_seq(n) == Seq::<Node>::empty());
                    assert(stack@ =~= base + kids_vec@.reverse() + attr_nodes);
                }
            }
            proof {
                assert(pre_stack.reverse() =~= seq![n] + base.reverse());
                lemma_step(*self, n, visited0, base, kids_vec@, attr_nodes);
                assert(self.order() == visited@ + self.order_concat(stack@.reverse()));
                assert forall|q: int| 0 <= q < stack@.len() implies self.in_tree(
                    #[trigger] stack@[q],
                ) by {
                    if q < base.len() {
                        assert(stack@[q] == pre_stack[q]);
                    } else if q < base.len() + kids_vec@.len() {
                        assert(stack@[q] == kids_vec@.reverse()[q - base.len()]);
                        assert(kids_vec@.reverse()[q - base.len()] == kids_vec@[kids_vec@.len() - 1
                            - (q - base.len())]);
                    } else {
                        assert(stack@[q] == attr_nodes[q - base.len() - kids_vec@.len()]);
                    }
                }
            }
        }
        proof {
            assert(stack@.reverse() =~= Seq::<Node>::empty());
            lemma_order_concat_empty(*self);
            assert(visited@ =~= self.order());
        }
        visited
    }
}

} // verus!
