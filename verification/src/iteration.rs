//! Iteration over the nodes of several branches.

use vstd::prelude::*;

use crate::model;
use crate::model::Branch;
use crate::node;
use crate::node::Node;

verus! {

/// References to the parts of nodes as mathematical values.
pub open spec fn referred<H, N, V>(parts: Seq<(&H, &N, &V)>) -> Seq<(H, N, V)> {
    parts.map_values(|p: (&H, &N, &V)| (*p.0, *p.1, *p.2))
}

/// The nodes that are referred to, as mathematical values.
pub(crate) open spec fn referred_nodes<H, N, V>(nodes: Seq<&Node<H, N, V>>) -> Seq<
    Branch<H, N, V>,
> {
    nodes.map_values(|n: &Node<H, N, V>| n@)
}

/// The nodes of a tree that are still to be visited.
pub(crate) struct ForkTreeIterator<'a, H, N, V> {
    pub(crate) stack: Vec<&'a Node<H, N, V>>,
}

impl<'a, H, N, V> ForkTreeIterator<'a, H, N, V> {
    /// All nodes to come, in order.
    pub(crate) open spec fn rest(self) -> Seq<Branch<H, N, V>> {
        model::walk_back(referred_nodes(self.stack@))
    }

    /// An iterator over the given nodes and what is below them, in pre-order.
    pub(crate) fn over(nodes: &'a Vec<Node<H, N, V>>) -> (r: Self)
        ensures
            r.rest() == model::walk_all(node::branches(nodes@)),
    {
        // the first node is to be visited first, so it goes on the stack last.
        let mut stack: Vec<&'a Node<H, N, V>> = Vec::new();
        let mut i: usize = nodes.len();
        while i > 0
            invariant
                i <= nodes@.len(),
                stack@.len() == nodes@.len() - i,
                forall|k: int|
                    0 <= k < stack@.len() ==> *(#[trigger] stack@[k]) == nodes@[nodes@.len() - 1
                        - k],
            decreases i,
        {
            i = i - 1;
            stack.push(&nodes[i]);
        }
        proof {
            let bs = node::branches(nodes@);
            let none = Seq::<Branch<H, N, V>>::empty();
            assert(referred_nodes(stack@) =~= none + bs.reverse());
            model::lemma_walk_back_reversed(none, bs);
            assert(model::walk_all(bs) + model::walk_back(none) =~= model::walk_all(bs));
        }
        ForkTreeIterator { stack }
    }

    /// The next node.
    pub(crate) fn next(&mut self) -> (r: Option<&'a Node<H, N, V>>)
        ensures
            match r {
                Some(node) => old(self).rest() == seq![node@] + final(self).rest(),
                None => old(self).rest().len() == 0 && final(self).rest().len() == 0,
            },
    {
        let ghost before = referred_nodes(self.stack@);
        match self.stack.pop() {
            Some(node) => {
                // child nodes are stored ordered by max branch height (decreasing),
                // we want to keep this ordering while iterating but since we're
                // using a stack for iterator state we need to reverse it.
                let ghost base = self.stack@;
                let mut k: usize = node.children.len();
                while k > 0
                    invariant
                        k <= node.children@.len(),
                        self.stack@.len() == base.len() + node.children@.len() - k,
                        forall|j: int| 0 <= j < base.len() ==> #[trigger] self.stack@[j] == base[j],
                        forall|j: int|
                            base.len() <= j < self.stack@.len() ==> *(#[trigger] self.stack@[j])
                                == node.children@[node.children@.len() - 1 - (j - base.len())],
                    decreases k,
                {
                    k = k - 1;
                    self.stack.push(&node.children[k]);
                }
                proof {
                    assert(before.last() == node@);
                    assert(before.drop_last() =~= referred_nodes(base));
                    assert(referred_nodes(self.stack@) =~= referred_nodes(base)
                        + node@.children.reverse());
                    model::lemma_walk_back_reversed(referred_nodes(base), node@.children);
                    assert(model::walk(node@) + model::walk_back(referred_nodes(base)) =~= seq![
                        node@,
                    ] + (model::walk_all(node@.children) + model::walk_back(
                        referred_nodes(base),
                    )));
                }
                Some(node)
            },
            None => {
                assert(before =~= Seq::empty());
                None
            },
        }
    }
}

/// Nodes that have left a tree and are still to be taken apart.
pub(crate) struct RemovedIterator<H, N, V> {
    pub(crate) stack: Vec<Node<H, N, V>>,
}

impl<H, N, V> RemovedIterator<H, N, V> {
    /// All nodes to come, in order.
    pub(crate) open spec fn rest(self) -> Seq<Branch<H, N, V>> {
        model::walk_back(node::branches(self.stack@))
    }

    /// The parts of the next node.
    pub(crate) fn next(&mut self) -> (r: Option<(H, N, V)>)
        ensures
            match r {
                Some(parts) => {
                    &&& old(self).rest().len() > 0
                    &&& model::entry(old(self).rest()[0]) == parts
                    &&& old(self).rest().drop_first() == final(self).rest()
                },
                None => old(self).rest().len() == 0 && final(self).rest().len() == 0,
            },
    {
        let ghost before = node::branches(self.stack@);
        match self.stack.pop() {
            Some(node) => {
                // child nodes are stored ordered by max branch height (decreasing),
                // we want to keep this ordering while iterating but since we're
                // using a stack for iterator state we need to reverse it.
                let ghost base = self.stack@;
                let ghost top = node@;
                let ghost given = node.children@;
                let Node { hash, number, data, mut children } = node;
                while children.len() > 0
                    invariant
                        children@.len() <= given.len(),
                        children@ == given.take(children@.len() as int),
                        self.stack@.len() == base.len() + given.len() - children@.len(),
                        forall|j: int| 0 <= j < base.len() ==> #[trigger] self.stack@[j] == base[j],
                        forall|j: int|
                            base.len() <= j < self.stack@.len() ==> #[trigger] self.stack@[j]
                                == given[given.len() - 1 - (j - base.len())],
                    decreases children@.len(),
                {
                    let last: usize = children.len() - 1;
                    let child = children.swap_remove(last);
                    assert(children@ =~= given.take(children@.len() as int));
                    self.stack.push(child);
                }
                proof {
                    assert(before.last() == top);
                    assert(before.drop_last() =~= node::branches(base));
                    assert(node::branches(self.stack@) =~= node::branches(base)
                        + top.children.reverse());
                    model::lemma_walk_back_reversed(node::branches(base), top.children);
                    let all = model::walk(top) + model::walk_back(node::branches(base));
                    assert(all[0] == top);
                    assert(all.drop_first() =~= model::walk_all(top.children) + model::walk_back(
                        node::branches(base),
                    ));
                }
                Some((hash, number, data))
            },
            None => {
                assert(before =~= Seq::empty());
                None
            },
        }
    }

    /// The parts of all nodes to come.
    pub(crate) fn collect(self) -> (r: Vec<(H, N, V)>)
        ensures
            r@ == model::entries(self.rest()),
    {
        let mut nodes = self;
        let mut parts: Vec<(H, N, V)> = Vec::new();
        let ghost all = self.rest();
        assert(parts@ + model::entries(nodes.rest()) =~= model::entries(all));
        loop
            invariant
                parts@ + model::entries(nodes.rest()) == model::entries(all),
            ensures
                nodes.rest().len() == 0,
            decreases nodes.rest().len(),
        {
            let ghost before = nodes.rest();
            let ghost so_far = parts@;
            match nodes.next() {
                Some(p) => {
                    parts.push(p);
                    assert(parts@ + model::entries(nodes.rest()) =~= so_far + model::entries(
                        before,
                    ));
                },
                None => {
                    assert(nodes.rest() =~= before);
                    break;
                },
            }
        }
        assert(parts@ + model::entries(nodes.rest()) =~= parts@);
        parts
    }
}

} // verus!
