//! Nodesets: ordered, duplicate-tolerant collections of node handles.
//!
//! A nodeset preserves insertion order and performs no deduplication; it is
//! the working currency of a query evaluator, which fills it with single
//! adds or whole-set merges and finally asks which member occurs first in
//! document order.

use vstd::prelude::*;

use crate::dom::Document;
use crate::node::Node;
use crate::node::ToNode;
use crate::node::position_of;

verus! {

/// One step of query evaluation: the node under consideration, as handed
/// over by the evaluator that drives this library.
#[derive(Copy, Clone, PartialEq, Eq, Hash, Debug, Structural)]
pub struct EvaluationContext {
    pub node: Node,
}

/// A collection of nodes: insertion order preserved, duplicates permitted,
/// membership never validated on entry. Its view is the sequence of its
/// members.
#[derive(Clone, Debug)]
pub struct Nodeset {
    nodes: Vec<Node>,
}

impl View for Nodeset {
    type V = Seq<Node>;

    closed spec fn view(&self) -> Seq<Node> {
        self.nodes@
    }
}

impl PartialEq for Nodeset {
    /// Two nodesets are equal when they hold the same nodes in the same
    /// order.
    fn eq(&self, other: &Nodeset) -> (r: bool) {
        if self.nodes.len() != other.nodes.len() {
            return false;
        }
        let mut k: usize = 0;
        while k < self.nodes.len()
            invariant
                self.nodes@.len() == other.nodes@.len(),
                0 <= k <= self.nodes@.len(),
                forall|j: int| 0 <= j < k ==> self.nodes@[j] == other.nodes@[j],
            decreases self.nodes@.len() - k,
        {
            if self.nodes[k] != other.nodes[k] {
                return false;
            }
            k = k + 1;
        }
        proof {
            assert(self.nodes@ =~= other.nodes@);
        }
        true
    }
}

impl vstd::std_specs::cmp::PartialEqSpecImpl for Nodeset {
    open spec fn obeys_eq_spec() -> bool {
        true
    }

    open spec fn eq_spec(&self, other: &Nodeset) -> bool {
        self@ == other@
    }
}

impl Nodeset {
    /// The empty nodeset.
    pub fn new() -> (s: Nodeset)
        ensures
            s@ == Seq::<Node>::empty(),
    {
        Nodeset { nodes: Vec::new() }
    }

    /// Append one node — anything convertible into the unified handle — at
    /// the end of the set. Nothing is validated and nothing deduplicated.
    pub fn add<N: ToNode>(&mut self, node: N)
        ensures
            final(self)@ == old(self)@.push(node.node_view()),
    {
        self.nodes.push(node.to_node());
    }

    /// Append all of `other`'s members, in `other`'s order, after the
    /// current members. `other` is not changed.
    pub fn add_nodeset(&mut self, other: &Nodeset)
        ensures
            final(self)@ == old(self)@ + other@,
    {
        let ghost start = self.nodes@;
        let mut k: usize = 0;
        while k < other.nodes.len()
            invariant
                0 <= k <= other.nodes@.len(),
                self.nodes@ == start + other.nodes@.subrange(0, k as int),
            decreases other.nodes@.len() - k,
        {
            self.nodes.push(other.nodes[k]);
            k = k + 1;
            proof {
                assert(self.nodes@ =~= start + other.nodes@.subrange(0, k as int));
            }
        }
        proof {
            assert(other.nodes@.subrange(0, other.nodes@.len() as int) =~= other.nodes@);
        }
    }

    /// How many members the set holds, duplicates counted.
    pub fn size(&self) -> (n: usize)
        ensures
            n == self@.len(),
    {
        self.nodes.len()
    }

    /// Read-only access to the members, in insertion order.
    pub fn iter(&self) -> (r: &Vec<Node>)
        ensures
            r@ == self@,
    {
        &self.nodes
    }

    /// Consume the set, yielding its members as an owning sequence.
    pub fn into_iter(self) -> (r: Vec<Node>)
        ensures
            r@ == self@,
    {
        self.nodes
    }

    /// Build a nodeset from a stream of evaluation contexts, taking just
    /// the node of each, in order.
    pub fn from_contexts(contexts: &Vec<EvaluationContext>) -> (s: Nodeset)
        ensures
            s@.len() == contexts@.len(),
            forall|i: int| 0 <= i < contexts@.len() ==> s@[i] == contexts@[i].node,
    {
        let mut s = Nodeset::new();
        let mut k: usize = 0;
        while k < contexts.len()
            invariant
                0 <= k <= contexts@.len(),
                s@.len() == k,
                forall|i: int| 0 <= i < k ==> s@[i] == contexts@[i].node,
            decreases contexts@.len() - k,
        {
            s.add(contexts[k].node);
            k = k + 1;
        }
        s
    }

    /// The member that occurs earliest in document order, or nothing when
    /// the set is empty.
    ///
    /// The one real precondition of the whole library: every member must
    /// belong to the tree of the given document. The result is pinned as
    /// the first entry of the document order that is a member of this set,
    /// so insertion order cannot affect it. A full traversal is performed
    /// on every call; nothing is cached.
    pub fn document_order_first(&self, doc: &Document) -> (r: Option<Node>)
        requires
            doc.wf(),
            forall|i: int| 0 <= i < self@.len() ==> doc.in_tree(#[trigger] self@[i]),
        ensures
            (r is None <==> self@.len() == 0),
            r matches Some(n) ==> self@.contains(n) && exists|k: int|
                0 <= k < doc.order().len() && doc.order()[k] == n && forall|j: int|
                    0 <= j < k ==> !self@.contains(doc.order()[j]),
    {
        if self.nodes.len() == 0 {
            return None;
        }
        let ord = doc.in_document_order();
        let mut k: usize = 0;
        while k < ord.len()
            invariant
                doc.wf(),
                forall|i: int| 0 <= i < self@.len() ==> doc.in_tree(#[trigger] self@[i]),
                self@.len() > 0,
                ord@ == doc.order(),
                0 <= k <= ord@.len(),
                forall|j: int| 0 <= j < k ==> !self@.contains(#[trigger] ord@[j]),
            decreases ord@.len() - k,
        {
            let candidate = ord[k];
            match position_of(&self.nodes, candidate) {
                Some(_) => {
                    proof {
                        assert(self@.contains(candidate));
                        assert(doc.order()[k as int] == candidate);
                    }
                    return Some(candidate);
                },
                None => {},
            }
            k = k + 1;
        }
        proof {
            doc.lemma_in_tree_in_order(self@[0]);
            assert(self@.contains(self@[0]));
            let k0 = choose|k0: int|
                0 <= k0 < doc.order().len() && doc.order()[k0] == self@[0];
            assert(!self@.contains(doc.order()[k0]));
            assert(false);
        }
        None
    }
}

/// The members a nodeset holds after adding every member of `t`, in order,
/// one at a time, to a nodeset holding `s` — the single-add counterpart of
/// [`Nodeset::add_nodeset`].
pub open spec fn added_all(s: Seq<Node>, t: Seq<Node>) -> Seq<Node>
    decreases t.len(),
{
    if t.len() == 0 {
        s
    } else {
        added_all(s.push(t[0]), t.drop_first())
    }
}

/// Merging is the same as adding one by one: a nodeset holding `s` ends up
/// with exactly `s + t` whether `t`'s members arrive through one
/// [`Nodeset::add_nodeset`] call or through [`Nodeset::add`] calls in the
/// same order. In particular, on an empty receiver, merging `a` then `b`
/// equals adding every member of `a` then every member of `b`.
pub proof fn lemma_merge_matches_adds(s: Seq<Node>, t: Seq<Node>)
    ensures
        added_all(s, t) == s + t,
    decreases t.len(),
{
    if t.len() == 0 {
        assert(s + t =~= s);
    } else {
        lemma_merge_matches_adds(s.push(t[0]), t.drop_first());
        assert(s.push(t[0]) + t.drop_first() =~= s + t);
    }
}

/// Merging into an empty receiver: a nodeset that merges `a` and then `b`
/// holds the same members, in the same order, as one that adds every
/// member of `a` and then every member of `b` one at a time.
pub proof fn lemma_empty_merge_matches_adds(a: Seq<Node>, b: Seq<Node>)
    ensures
        added_all(added_all(Seq::<Node>::empty(), a), b) == Seq::<Node>::empty() + a + b,
{
    lemma_merge_matches_adds(Seq::<Node>::empty(), a);
    lemma_merge_matches_adds(Seq::<Node>::empty() + a, b);
}

/// Insertion order cannot affect [`Nodeset::document_order_first`]: its
/// contract pins the result through membership alone, so any two results it
/// allows for membership-equal sets over the same document order coincide.
pub proof fn lemma_first_member_depends_on_membership_alone(
    ord: Seq<Node>,
    s1: Seq<Node>,
    s2: Seq<Node>,
    r1: Node,
    r2: Node,
    k1: int,
    k2: int,
)
    requires
        forall|n: Node| s1.contains(n) <==> s2.contains(n),
        0 <= k1 < ord.len() && ord[k1] == r1 && s1.contains(r1),
        forall|j: int| 0 <= j < k1 ==> !s1.contains(ord[j]),
        0 <= k2 < ord.len() && ord[k2] == r2 && s2.contains(r2),
        forall|j: int| 0 <= j < k2 ==> !s2.contains(ord[j]),
    ensures
        r1 == r2,
        k1 == k2,
{
    if k1 < k2 {
        assert(s2.contains(ord[k1]));
    }
    if k2 < k1 {
        assert(s1.contains(ord[k2]));
    }
}

} // verus!

