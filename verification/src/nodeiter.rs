//! A pre-order walk over the nodes of a tree.
//!
//! The iterator yields every node below the root (the root itself is not
//! yielded), visiting a node before its children, children left to
//! right.  Its mathematical value is [`NodeIter::remaining`], the
//! sequence of nodes not yet yielded, which equals the pre-order
//! flattening of the root's children at the start and loses its front
//! element at each step.  The parser walks one of these over the
//! previous tree as its memo source, and rendering walks one over the
//! current tree.

use vstd::prelude::*;

use crate::node::GNode;
use crate::node::Node;
use crate::node::pre_list;
use crate::node::pre_node;

verus! {

/// A step along the iteration: a node being traversed and the position
/// of the walk among its children.
struct NodeIterStep<'a> {
    node: &'a Node,
    index: usize,
}

/// An iterator over the nodes of a tree, in pre-order.
pub struct NodeIter<'a> {
    nodes: Vec<NodeIterStep<'a>>,
}

/// What a traversal stack still has to yield.
spec fn stack_rem(frames: Seq<NodeIterStep<'_>>) -> Seq<GNode>
    decreases frames.len(),
{
    if frames.len() == 0 {
        Seq::empty()
    } else {
        pre_list(frames.last().node@.subs.skip(frames.last().index as int)) + lower_rem(
            frames.drop_last(),
        )
    }
}

/// What the frames below the top still have to yield: each is positioned
/// on the child being traversed above it, so it resumes one child later.
spec fn lower_rem(frames: Seq<NodeIterStep<'_>>) -> Seq<GNode>
    decreases frames.len(),
{
    if frames.len() == 0 {
        Seq::empty()
    } else {
        pre_list(frames.last().node@.subs.skip(frames.last().index + 1)) + lower_rem(
            frames.drop_last(),
        )
    }
}

/// Splitting a pre-order flattening at its first node.
proof fn lemma_pre_list_skip(s: Seq<GNode>, k: int)
    requires
        0 <= k < s.len(),
    ensures
        pre_list(s.skip(k)) == seq![s[k]] + (pre_list(s[k].subs) + pre_list(s.skip(k + 1))),
{
    assert(s.skip(k)[0] == s[k]);
    assert(s.skip(k).drop_first() =~= s.skip(k + 1));
    assert(pre_list(s.skip(k)) == pre_node(s[k]) + pre_list(s.skip(k + 1)));
    assert(pre_node(s[k]) + pre_list(s.skip(k + 1)) =~= seq![s[k]] + (pre_list(s[k].subs)
        + pre_list(s.skip(k + 1))));
}

impl<'a> NodeIter<'a> {
    /// The sequence of nodes the iterator has not yet yielded.
    pub closed spec fn remaining(&self) -> Seq<GNode> {
        stack_rem(self.nodes@)
    }

    /// Every frame of the stack points at one of its node's children.
    pub closed spec fn wf(&self) -> bool {
        forall|k: int|
            0 <= k < self.nodes@.len() ==> (#[trigger] self.nodes@[k]).index
                < self.nodes@[k].node@.subs.len()
    }

    /// Initializes a walk over everything below `root`.
    pub fn new(root: &'a Node) -> (r: NodeIter<'a>)
        ensures
            r.wf(),
            r.remaining() == pre_list(root@.subs),
    {
        if root.subs.len() == 0 {
            let r = NodeIter { nodes: Vec::new() };
            proof {
                crate::node::lemma_nodes_view(root.subs@);
            }
            return r;
        }
        let mut nodes: Vec<NodeIterStep<'a>> = Vec::new();
        nodes.push(NodeIterStep { node: root, index: 0 });
        let r = NodeIter { nodes };
        proof {
            crate::node::lemma_nodes_view(root.subs@);
            assert(r.nodes@.drop_last() =~= Seq::<NodeIterStep<'_>>::empty());
            assert(root@.subs.skip(0) =~= root@.subs);
            assert(r.remaining() =~= pre_list(root@.subs));
        }
        r
    }

    /// The next node to be yielded, without advancing.
    pub fn peek(&self) -> (r: Option<&'a Node>)
        requires
            self.wf(),
        ensures
            (r matches Some(n) ==> self.remaining().len() > 0 && n@ == self.remaining()[0]),
            (r is None ==> self.remaining().len() == 0),
    {
        if self.nodes.len() == 0 {
            return None;
        }
        let step = &self.nodes[self.nodes.len() - 1];
        proof {
            let frames = self.nodes@;
            assert(frames[frames.len() - 1].index < frames[frames.len() - 1].node@.subs.len());
            crate::node::lemma_nodes_view(step.node.subs@);
            lemma_pre_list_skip(step.node@.subs, step.index as int);
        }
        let n: &'a Node = &step.node.subs[step.index];
        Some(n)
    }

    /// Yields the next node and advances past it.
    pub fn next(&mut self) -> (r: Option<&'a Node>)
        requires
            old(self).wf(),
        ensures
            final(self).wf(),
            (r matches Some(n) ==> {
                &&& old(self).remaining().len() > 0
                &&& n@ == old(self).remaining()[0]
                &&& final(self).remaining() == old(self).remaining().drop_first()
            }),
            (r is None ==> old(self).remaining().len() == 0 && final(self).remaining()
                == old(self).remaining()),
    {
        if self.nodes.len() == 0 {
            return None;
        }
        let ghost frames0 = self.nodes@;
        let ghost top0 = frames0.last();
        let ghost rem0 = stack_rem(frames0);
        proof {
            assert(frames0[frames0.len() - 1].index < frames0[frames0.len() - 1].node@.subs.len());
            crate::node::lemma_nodes_view(top0.node.subs@);
            lemma_pre_list_skip(top0.node@.subs, top0.index as int);
        }
        let step = &self.nodes[self.nodes.len() - 1];
        let node: &'a Node = &step.node.subs[step.index];
        if node.subs.len() > 0 {
            // Descend: the yielded node's children come next.
            self.nodes.push(NodeIterStep { node, index: 0 });
            proof {
                crate::node::lemma_nodes_view(node.subs@);
                assert(self.nodes@.drop_last() =~= frames0);
                assert(node@.subs.skip(0) =~= node@.subs);
                assert(stack_rem(self.nodes@) =~= rem0.drop_first());
            }
            return Some(node);
        }
        // Climb: move to the next sibling, leaving finished nodes.
        let ghost target = rem0.drop_first();
        proof {
            assert(node@.subs.len() == 0);
            assert(pre_list(node@.subs) =~= Seq::<GNode>::empty());
            assert(lower_rem(frames0) =~= target);
        }
        loop
            invariant_except_break
                lower_rem(self.nodes@) == target,
                forall|k: int|
                    0 <= k < self.nodes@.len() ==> (#[trigger] self.nodes@[k]).index
                        < self.nodes@[k].node@.subs.len(),
            ensures
                stack_rem(self.nodes@) == target,
                forall|k: int|
                    0 <= k < self.nodes@.len() ==> (#[trigger] self.nodes@[k]).index
                        < self.nodes@[k].node@.subs.len(),
            decreases self.nodes@.len(),
        {
            let ghost frames = self.nodes@;
            match self.nodes.pop() {
                Some(f) => {
                    proof {
                        assert(self.nodes@ =~= frames.drop_last());
                        assert(f == frames.last());
                        assert(frames[frames.len() - 1].index < frames[frames.len()
                            - 1].node@.subs.len());
                        crate::node::lemma_nodes_view(f.node.subs@);
                    }
                    if f.index < f.node.subs.len() - 1 {
                        let f2 = NodeIterStep { node: f.node, index: f.index + 1 };
                        self.nodes.push(f2);
                        proof {
                            assert(self.nodes@.drop_last() =~= frames.drop_last());
                            assert(stack_rem(self.nodes@) == target);
                        }
                        break;
                    }
                    proof {
                        assert(f.node@.subs.skip(f.index + 1) =~= Seq::<GNode>::empty());
                        assert(lower_rem(frames) =~= lower_rem(frames.drop_last()));
                        assert forall|k: int|
                            0 <= k < self.nodes@.len() implies (#[trigger] self.nodes@[k]).index
                            < self.nodes@[k].node@.subs.len() by {
                            assert(self.nodes@[k] == frames[k]);
                        }
                    }
                },
                None => {
                    proof {
                        assert(frames.len() == 0);
                        assert(stack_rem(self.nodes@) =~= target);
                    }
                    break;
                },
            }
        }
        Some(node)
    }
}

} // verus!
