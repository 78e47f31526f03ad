//! The tree itself.

use vstd::prelude::*;
use vstd::std_specs::cmp::PartialEqIs;

use crate::balance;
use crate::contents;
use crate::error::{Error, FinalizationResult, FindOutcome};
use crate::finalization;
use crate::iteration;
use crate::iteration::{ForkTreeIterator, RemovedIterator};
use crate::model;
use crate::model::{Branch, Forest};
use crate::node;
use crate::node::Node;
use crate::placement;
use crate::placement::Placement;
use crate::search;
use crate::trail;

verus! {

/// A tree data structure that stores several nodes across multiple branches.
/// Top-level branches are called roots. The tree has functionality for
/// finalizing nodes, which means that that node is traversed, and all competing
/// branches are pruned. It also guarantees that nodes in the tree are finalized
/// in order. Each node is uniquely identified by its hash but can be ordered by
/// its number. In order to build the tree an external function must be provided
/// when interacting with the tree to establish a node's ancestry.
#[derive(Debug, PartialEq)]
pub struct ForkTree<H, N, V> {
    /// The top-level nodes.
    pub roots: Vec<Node<H, N, V>>,
    /// The number of the last finalized node.
    pub best_finalized_number: Option<N>,
}

impl<H, N, V> View for ForkTree<H, N, V> {
    type V = Forest<H, N, V>;

    open spec fn view(&self) -> Forest<H, N, V> {
        Forest {
            roots: node::branches(self.roots@),
            best_finalized_number: self.best_finalized_number,
        }
    }
}

impl<H: Clone, N: Clone, V: Clone> Clone for ForkTree<H, N, V> {
    fn clone(&self) -> (r: Self)
        ensures
            cloned(self@.best_finalized_number, r@.best_finalized_number),
            r@.roots.len() == self@.roots.len(),
            forall|i: int|
                0 <= i < self@.roots.len() ==> node::cloned_branch(
                    #[trigger] self@.roots[i],
                    r@.roots[i],
                ),
    {
        let roots = self.roots.clone();
        let r = ForkTree { roots, best_finalized_number: self.best_finalized_number.clone() };
        assert forall|i: int| 0 <= i < self@.roots.len() implies node::cloned_branch(
            #[trigger] self@.roots[i],
            r@.roots[i],
        ) by {
            assert(cloned(self.roots@[i], roots@[i]));
            node::lemma_cloned_branch(self@.roots[i]);
        }
        r
    }
}

/// Whether the node is finalized by the given hash and number: it passes the
/// predicate, it is the node with that hash or an ancestor of it, and we're not
/// finalizing past any of its children. The predicate is checked first.
fn finalizes<H: PartialEq, N: Ord, V, F, P, E>(
    node: &Node<H, N, V>,
    hash: &H,
    number: &N,
    is_descendent_of: &F,
    predicate: &P,
) -> (r: Result<bool, Error<E>>) where F: Fn(&H, &H) -> Result<bool, E>, P: Fn(&V) -> bool
    requires
        model::tests_all(*predicate),
        model::answers_if_passed(*is_descendent_of, *predicate, node@, *hash),
    ensures
        forall|d: spec_fn(H, H) -> Result<bool, E>, q: spec_fn(V) -> bool| #[trigger]
            model::decides::<H, N, E, F>(*is_descendent_of, d) && #[trigger] model::selects(
                *predicate,
                q,
            ) ==> r == finalization::finalizes(node@, *hash, *number, d, q),
        r == Ok::<bool, Error<E>>(true) ==> call_ensures(*predicate, (&node.data,), true),
        r == Ok::<bool, Error<E>>(false) ==> model::may_be_passed_over(
            *is_descendent_of,
            *predicate,
            node@,
            *hash,
        ),
        r matches Err(Error::Client(e)) ==> model::fails_with(*is_descendent_of, *hash, e),
{
    if !predicate(&node.data) {
        return Ok(false);
    }
    if !(node.hash == *hash) {
        match is_descendent_of(&node.hash, hash) {
            Ok(true) => {},
            Ok(false) => {
                return Ok(false);
            },
            Err(e) => {
                return Err(Error::Client(e));
            },
        }
    }
    let mut i: usize = 0;
    while i < node.children.len()
        invariant
            call_ensures(*predicate, (&node.data,), true),
            model::answers_if_passed(*is_descendent_of, *predicate, node@, *hash),
            i <= node.children@.len(),
            forall|d: spec_fn(H, H) -> Result<bool, E>, q: spec_fn(V) -> bool| #[trigger]
                model::decides::<H, N, E, F>(*is_descendent_of, d) && #[trigger] model::selects(
                    *predicate,
                    q,
                ) ==> finalization::finalizes(node@, *hash, *number, d, q)
                    == match finalization::overtaken(
                    node@.children,
                    i as int,
                    *hash,
                    *number,
                    d,
                ) {
                    Some(e) => Err(e),
                    None => Ok::<bool, Error<E>>(true),
                },
        decreases node.children@.len() - i,
    {
        let child = &node.children[i];
        assert(child@ == node@.children[i as int]);
        if child.number <= *number {
            match is_descendent_of(&child.hash, hash) {
                Ok(true) => {
                    return Err(Error::UnfinalizedAncestor);
                },
                Ok(false) => {},
                Err(e) => {
                    return Err(Error::Client(e));
                },
            }
        }
        i = i + 1;
    }
    Ok(true)
}

impl<H: PartialEq, N: Ord, V> ForkTree<H, N, V> {
    /// Create a new empty tree.
    pub fn new() -> (r: ForkTree<H, N, V>)
        ensures
            r@.roots == Seq::<Branch<H, N, V>>::empty(),
            r@.best_finalized_number == None::<N>,
    {
        let r = ForkTree { roots: Vec::new(), best_finalized_number: None };
        assert(r@.roots =~= Seq::empty());
        r
    }

    /// Rebalance the tree, i.e. sort child nodes by max branch depth
    /// (decreasing).
    ///
    /// Most operations in the tree are performed with depth-first search
    /// starting from the leftmost node at every level, since this tree is meant
    /// to be used in a blockchain context, a good heuristic is that the node
    /// we'll be looking
    /// for at any point will likely be in one of the deepest chains (i.e. the
    /// longest ones).
    pub fn rebalance(&mut self)
        ensures
            final(self)@.roots == balance::rebalanced_all(old(self)@.roots),
            final(self)@.best_finalized_number == old(self)@.best_finalized_number,
    {
        node::rebalance_all(&mut self.roots);
    }

    /// Whether the number is not above that of the last finalized node.
    fn reverts(&self, number: &N) -> (r: bool)
        ensures
            model::lawful_keys::<H, N>() ==> r == finalization::reverts(self@, *number),
            self@.best_finalized_number is None ==> !r,
    {
        match &self.best_finalized_number {
            Some(best_finalized_number) => *number <= *best_finalized_number,
            None => false,
        }
    }

    /// Import a new node into the tree. The given function `is_descendent_of`
    /// should return `true` if the second hash (target) is a descendent of the
    /// first hash (base). This method assumes that nodes in the same branch are
    /// imported in order.
    ///
    /// Returns `true` if the imported node is a root.
    pub fn import<F, E>(&mut self, hash: H, number: N, data: V, is_descendent_of: &F) -> (r: Result<
        bool,
        Error<E>,
    >) where F: Fn(&H, &H) -> Result<bool, E>
        requires
            model::answers_all(*is_descendent_of),
        ensures
            forall|d: spec_fn(H, H) -> Result<bool, E>| #[trigger]
                model::decides::<H, N, E, F>(*is_descendent_of, d) ==> (final(self)@, r)
                    == placement::imported(old(self)@, hash, number, data, d),
            match r {
                Ok(true) => final(self)@ == (Forest {
                    roots: balance::rebalanced_all(
                        old(self)@.roots.push(model::leaf(hash, number, data)),
                    ),
                    ..old(self)@
                }),
                Ok(false) => exists|path: Seq<int>| #[trigger]
                    model::is_path(old(self)@.roots, path) && final(self)@ == (Forest {
                        roots: balance::rebalanced_all(
                            placement::grafted(
                                old(self)@.roots,
                                path,
                                model::leaf(hash, number, data),
                            ),
                        ),
                        ..old(self)@
                    }),
                Err(_) => final(self)@ == old(self)@,
            },
            r matches Err(Error::Client(e)) ==> model::fails_with(*is_descendent_of, hash, e),
    {
        if self.reverts(&number) {
            return Err(Error::Revert);
        }
        let ghost given = self@;
        let ghost leaf = model::leaf(hash, number, data);
        let mut entry = (hash, number, data);
        let mut i: usize = 0;
        while i < self.roots.len()
            invariant
                model::answers_all(*is_descendent_of),
                i <= self.roots@.len(),
                self.roots@ == old(self).roots@,
                self.best_finalized_number == old(self).best_finalized_number,
                given == old(self)@,
                entry == (hash, number, data),
                leaf == model::leaf(hash, number, data),
                forall|d: spec_fn(H, H) -> Result<bool, E>| #[trigger]
                    model::decides::<H, N, E, F>(*is_descendent_of, d) ==> {
                        &&& !finalization::reverts(given, number)
                        &&& placement::place_all(given.roots, 0, hash, number, d)
                            == placement::place_all(given.roots, i as int, hash, number, d)
                    },
            decreases self.roots@.len() - i,
        {
            let ghost root = self.roots@[i as int]@;
            assert(root == given.roots[i as int]);
            let (h, n, v) = entry;
            match self.roots[i].import(h, n, v, is_descendent_of) {
                Ok(Some(returned)) => {
                    entry = returned;
                    assert(self.roots@ =~= old(self).roots@);
                },
                Ok(None) => {
                    proof {
                        assert(self@.roots =~= given.roots.update(
                            i as int,
                            self.roots@[i as int]@,
                        ));
                        let below = choose|path: Seq<int>| #[trigger]
                            model::is_path_from(root, path) && self.roots@[i as int]@
                                == placement::grafted_from(root, path, leaf);
                        placement::lemma_grafted(given.roots, i as int, below, leaf);
                        assert forall|d: spec_fn(H, H) -> Result<bool, E>| #[trigger]
                            model::decides::<H, N, E, F>(
                                *is_descendent_of,
                                d,
                            ) implies placement::place_all(given.roots, 0, hash, number, d)
                            matches Placement::Under(path) && self@.roots == placement::grafted(
                            given.roots,
                            path,
                            leaf,
                        ) by {
                            let p = placement::place(root, hash, number, d)->Under_0;
                            placement::lemma_grafted(given.roots, i as int, p, leaf);
                        }
                    }
                    self.rebalance();
                    return Ok(false);
                },
                Err(e) => {
                    assert(self.roots@ =~= old(self).roots@);
                    return Err(e);
                },
            }
            i = i + 1;
        }
        let (h, n, v) = entry;
        self.roots.push(node::leaf(h, n, v));
        assert(self@.roots =~= given.roots.push(leaf));
        self.rebalance();
        Ok(true)
    }

    /// Iterates over the existing roots in the tree.
    pub fn roots(&self) -> (r: Vec<(&H, &N, &V)>)
        ensures
            iteration::referred(r@) == model::entries(self@.roots),
    {
        let mut r: Vec<(&H, &N, &V)> = Vec::new();
        let mut i: usize = 0;
        while i < self.roots.len()
            invariant
                i <= self.roots@.len(),
                r@.len() == i,
                forall|k: int|
                    0 <= k < i ==> iteration::referred(r@)[k] == #[trigger] model::entries(
                        self@.roots,
                    )[k],
            decreases self.roots@.len() - i,
        {
            let root = &self.roots[i];
            r.push((&root.hash, &root.number, &root.data));
            i = i + 1;
        }
        assert(iteration::referred(r@) =~= model::entries(self@.roots));
        r
    }

    /// Iterates the nodes in the tree in pre-order.
    fn node_iter(&self) -> (r: ForkTreeIterator<'_, H, N, V>)
        ensures
            r.rest() == model::walk_all(self@.roots),
    {
        ForkTreeIterator::over(&self.roots)
    }

    /// Iterates the nodes in the tree in pre-order.
    pub fn iter(&self) -> (r: Vec<(&H, &N, &V)>)
        ensures
            iteration::referred(r@) == model::entries(model::walk_all(self@.roots)),
    {
        let mut nodes = self.node_iter();
        let mut r: Vec<(&H, &N, &V)> = Vec::new();
        let ghost all = nodes.rest();
        assert(iteration::referred(r@) + model::entries(nodes.rest()) =~= model::entries(all));
        loop
            invariant
                iteration::referred(r@) + model::entries(nodes.rest()) == model::entries(all),
            ensures
                nodes.rest().len() == 0,
            decreases nodes.rest().len(),
        {
            let ghost before = nodes.rest();
            let ghost so_far = iteration::referred(r@);
            match nodes.next() {
                Some(node) => {
                    r.push((&node.hash, &node.number, &node.data));
                    assert(iteration::referred(r@) + model::entries(nodes.rest()) =~= so_far
                        + model::entries(before));
                },
                None => {
                    assert(nodes.rest() =~= before);
                    break;
                },
            }
        }
        assert(iteration::referred(r@) + model::entries(nodes.rest()) =~= iteration::referred(r@));
        r
    }

    /// Find a node in the tree that is the deepest ancestor of the given
    /// block hash and which passes the given predicate. The given function
    /// `is_descendent_of` should return `true` if the second hash (target)
    /// is a descendent of the first hash (base).
    pub fn find_node_where<F, E, P>(
        &self,
        hash: &H,
        number: &N,
        is_descendent_of: &F,
        predicate: &P,
    ) -> (r: Result<Option<&Node<H, N, V>>, Error<E>>) where
        F: Fn(&H, &H) -> Result<bool, E>,
        P: Fn(&V) -> bool,

        requires
            model::answers_all(*is_descendent_of),
            model::tests_all(*predicate),
        ensures
            forall|d: spec_fn(H, H) -> Result<bool, E>, q: spec_fn(V) -> bool| #[trigger]
                model::decides::<H, N, E, F>(*is_descendent_of, d) && #[trigger] model::selects(
                    *predicate,
                    q,
                ) ==> match search::find(self@.roots, 0, *hash, *number, d, q) {
                    Ok(Some(path)) => r matches Ok(Some(node)) && node@ == model::node_at(
                        self@.roots,
                        path,
                    ),
                    Ok(None) => r == Ok::<_, Error<E>>(None::<&Node<H, N, V>>),
                    Err(e) => r == Err::<Option<&Node<H, N, V>>, _>(e),
                },
            r matches Ok(Some(node)) ==> {
                &&& call_ensures(*predicate, (&node.data,), true)
                &&& exists|path: Seq<int>| #[trigger]
                    model::is_path(self@.roots, path) && node@ == model::node_at(
                        self@.roots,
                        path,
                    )
            },
            r matches Err(Error::Client(e)) ==> model::fails_with(*is_descendent_of, *hash, e),
    {
        // search for node starting from all roots
        let mut i: usize = 0;
        while i < self.roots.len()
            invariant
                model::answers_all(*is_descendent_of),
                model::tests_all(*predicate),
                i <= self.roots@.len(),
                forall|d: spec_fn(H, H) -> Result<bool, E>, q: spec_fn(V) -> bool| #[trigger]
                    model::decides::<H, N, E, F>(*is_descendent_of, d) && #[trigger] model::selects(
                        *predicate,
                        q,
                    ) ==> search::find(self@.roots, 0, *hash, *number, d, q) == search::find(
                        self@.roots,
                        i as int,
                        *hash,
                        *number,
                        d,
                        q,
                    ),
            decreases self.roots@.len() - i,
        {
            let root = &self.roots[i];
            match root.find_node_where(hash, number, is_descendent_of, predicate) {
                // found the node, early exit
                Ok(FindOutcome::Found(node)) => {
                    proof {
                        let below = choose|path: Seq<int>| #[trigger]
                            model::is_path_from(root@, path) && node@ == model::node_from(
                                root@,
                                path,
                            );
                        model::lemma_path_below(self@.roots, i as int, below);
                        assert forall|d: spec_fn(H, H) -> Result<bool, E>, q: spec_fn(V) -> bool|
                            #[trigger] model::decides::<H, N, E, F>(*is_descendent_of, d)
                                && #[trigger] model::selects(*predicate, q) implies search::find(
                            self@.roots,
                            0,
                            *hash,
                            *number,
                            d,
                            q,
                        ) matches Ok(Some(path)) && node@ == model::node_at(self@.roots, path) by {
                            model::lemma_path_below(
                                self@.roots,
                                i as int,
                                search::find_from(root@, *hash, *number, d, q)->Ok_0->Found_0,
                            );
                        }
                    }
                    return Ok(Some(node));
                },
                Ok(_) => {},
                Err(e) => {
                    return Err(e);
                },
            }
            i = i + 1;
        }
        Ok(None)
    }

    /// Same as [`find_node_where`](ForkTree::find_node_where), but returns indexes.
    pub fn find_node_index_where<F, E, P>(
        &self,
        hash: &H,
        number: &N,
        is_descendent_of: &F,
        predicate: &P,
    ) -> (r: Result<Option<Vec<usize>>, Error<E>>) where
        F: Fn(&H, &H) -> Result<bool, E>,
        P: Fn(&V) -> bool,

        requires
            model::answers_all(*is_descendent_of),
            model::tests_all(*predicate),
        ensures
            forall|d: spec_fn(H, H) -> Result<bool, E>, q: spec_fn(V) -> bool| #[trigger]
                model::decides::<H, N, E, F>(*is_descendent_of, d) && #[trigger] model::selects(
                    *predicate,
                    q,
                ) ==> match search::find(self@.roots, 0, *hash, *number, d, q) {
                    Ok(Some(path)) => r matches Ok(Some(found)) && model::indices(found@) == path,
                    Ok(None) => r == Ok::<_, Error<E>>(None::<Vec<usize>>),
                    Err(e) => r == Err::<Option<Vec<usize>>, _>(e),
                },
            r matches Ok(Some(found)) ==> {
                &&& model::is_path(self@.roots, model::indices(found@))
                &&& call_ensures(
                    *predicate,
                    (&model::node_at(self@.roots, model::indices(found@)).data,),
                    true,
                )
            },
            r matches Err(Error::Client(e)) ==> model::fails_with(*is_descendent_of, *hash, e),
    {
        // search for node starting from all roots
        let mut i: usize = 0;
        while i < self.roots.len()
            invariant
                model::answers_all(*is_descendent_of),
                model::tests_all(*predicate),
                i <= self.roots@.len(),
                forall|d: spec_fn(H, H) -> Result<bool, E>, q: spec_fn(V) -> bool| #[trigger]
                    model::decides::<H, N, E, F>(*is_descendent_of, d) && #[trigger] model::selects(
                        *predicate,
                        q,
                    ) ==> search::find(self@.roots, 0, *hash, *number, d, q) == search::find(
                        self@.roots,
                        i as int,
                        *hash,
                        *number,
                        d,
                        q,
                    ),
            decreases self.roots@.len() - i,
        {
            let root = &self.roots[i];
            match root.find_node_index_where(hash, number, is_descendent_of, predicate) {
                // found the node, early exit
                Ok(FindOutcome::Found(path)) => {
                    let ghost below = model::indices(path@);
                    let mut found = path;
                    found.push(i);
                    proof {
                        model::lemma_path_below(self@.roots, i as int, below);
                        assert(model::indices(found@) =~= below.push(i as int));
                    }
                    return Ok(Some(found));
                },
                Ok(_) => {},
                Err(e) => {
                    return Err(e);
                },
            }
            i = i + 1;
        }
        Ok(None)
    }

    /// Same as [`find_node_where`](ForkTree::find_node_where), but returns mutable reference.
    pub fn find_node_where_mut<F, E, P>(
        &mut self,
        hash: &H,
        number: &N,
        is_descendent_of: &F,
        predicate: &P,
    ) -> (r: Result<Option<&mut Node<H, N, V>>, Error<E>>) where
        F: Fn(&H, &H) -> Result<bool, E>,
        P: Fn(&V) -> bool,

        requires
            model::answers_all(*is_descendent_of),
            model::tests_all(*predicate),
        ensures
            forall|d: spec_fn(H, H) -> Result<bool, E>, q: spec_fn(V) -> bool| #[trigger]
                model::decides::<H, N, E, F>(*is_descendent_of, d) && #[trigger] model::selects(
                    *predicate,
                    q,
                ) ==> match search::find(old(self)@.roots, 0, *hash, *number, d, q) {
                    Ok(Some(path)) => r matches Ok(Some(node)) && {
                        &&& (*node)@ == model::node_at(old(self)@.roots, path)
                        &&& (*final(self))@ == (Forest {
                            roots: model::put_at(old(self)@.roots, path, (*final(node))@),
                            ..old(self)@
                        })
                    },
                    Ok(None) => r matches Ok(None) && final(self)@ == old(self)@,
                    Err(e) => {
                        &&& r matches Err(f) && f == e
                        &&& final(self)@ == old(self)@
                    },
                },
            match r {
                Ok(Some(node)) => {
                    &&& call_ensures(*predicate, (&(*node).data,), true)
                    &&& exists|path: Seq<int>| #[trigger]
                        model::is_path(old(self)@.roots, path) && (*node)@ == model::node_at(
                            old(self)@.roots,
                            path,
                        ) && (*final(self))@ == (Forest {
                            roots: model::put_at(old(self)@.roots, path, (*final(node))@),
                            ..old(self)@
                        })
                },
                _ => final(self)@ == old(self)@,
            },
            r matches Err(Error::Client(e)) ==> model::fails_with(*is_descendent_of, *hash, e),
    {
        match self.find_node_index_where(hash, number, is_descendent_of, predicate) {
            Ok(Some(path)) => {
                let ghost given = self@;
                let ghost full = model::indices(path@);
                let mut path = path;
                let last: usize = path.len() - 1;
                let i: usize = path[last];
                path.truncate(last);
                assert(model::indices(path@) =~= full.drop_last());
                assert(full.last() == i);
                let ghost before = *self;
                let ghost after = *final(self);
                let found = node::follow_mut(&mut self.roots[i], path);
                proof {
                    assert(after.roots@.len() == before.roots@.len());
                    assert(after@.roots =~= given.roots.update(
                        i as int,
                        model::put_from(
                            given.roots[i as int],
                            full.drop_last(),
                            (*final(found))@,
                        ),
                    ));
                }
                Ok(Some(found))
            },
            Ok(None) => Ok(None),
            Err(e) => Err(e),
        }
    }

    /// Map fork tree into values of new types. Children are mapped before
    /// their parent. What is stated is for a function that keeps no state.
    pub fn map<VT, F>(self, f: &mut F) -> (r: ForkTree<H, N, VT>) where F: FnMut(&H, &N, V) -> VT
        requires
            model::maps_all(*old(f)),
        ensures
            r@.best_finalized_number == self@.best_finalized_number,
            r@.roots.len() == self@.roots.len(),
            forall|i: int|
                0 <= i < self@.roots.len() ==> model::mapped_by(
                    *old(f),
                    #[trigger] self@.roots[i],
                    r@.roots[i],
                ),
    {
        let ForkTree { roots: given, best_finalized_number } = self;
        let mut roots: Vec<Node<H, N, VT>> = Vec::new();
        for root in nodes: given
            invariant
                model::maps_all(*f),
                *f == *old(f),
                nodes.seq() == given@,
                roots@.len() == nodes.index(),
                forall|k: int|
                    0 <= k < nodes.index() ==> model::mapped_by(
                        *f,
                        given@[k]@,
                        (#[trigger] roots@[k])@,
                    ),
        {
            roots.push(node::map_node(root, f));
        }
        let r = ForkTree { roots, best_finalized_number };
        assert forall|i: int| 0 <= i < self@.roots.len() implies model::mapped_by(
            *f,
            #[trigger] self@.roots[i],
            r@.roots[i],
        ) by {
            assert(model::mapped_by(*f, given@[i]@, roots@[i]@));
        }
        r
    }

    /// Finalize a root in the tree and return it, return `None` in case no root
    /// with the given hash exists. All other roots are pruned, and the children
    /// of the finalized node become the new roots.
    pub fn finalize_root(&mut self, hash: &H) -> (r: Option<V>)
        ensures
            model::lawful_keys::<H, N>() ==> match finalization::first_with_hash(
                old(self)@.roots,
                0,
                *hash,
            ) {
                Some(i) => r == Some(old(self)@.roots[i].data) && final(self)@
                    == finalization::opened(old(self)@, i),
                None => r is None,
            },
            match r {
                Some(data) => exists|i: int|
                    0 <= i < old(self)@.roots.len() && data == (
                    #[trigger] old(self)@.roots[i]).data && final(self)@ == finalization::opened(
                        old(self)@,
                        i,
                    ),
                None => final(self)@ == old(self)@,
            },
    {
        let mut i: usize = 0;
        while i < self.roots.len()
            invariant
                i <= self.roots@.len(),
                self@ == old(self)@,
                model::lawful_keys::<H, N>() ==> finalization::first_with_hash(
                    self@.roots,
                    0,
                    *hash,
                ) == finalization::first_with_hash(self@.roots, i as int, *hash),
            decreases self.roots@.len() - i,
        {
            assert(self@.roots[i as int] == self.roots@[i as int]@);
            if self.roots[i].hash == *hash {
                return Some(self.finalize_root_at(i));
            }
            i = i + 1;
        }
        None
    }

    /// Finalize root at given position. See `finalize_root` comment for details.
    fn finalize_root_at(&mut self, position: usize) -> (r: V)
        requires
            position < old(self)@.roots.len(),
        ensures
            r == old(self)@.roots[position as int].data,
            final(self)@ == finalization::opened(old(self)@, position as int),
    {
        let ghost root = self.roots@[position as int]@;
        assert(root == self@.roots[position as int]);
        let Node { hash: _, number, data, children } = self.roots.swap_remove(position);
        self.roots = children;
        self.best_finalized_number = Some(number);
        assert(self@.roots =~= root.children);
        data
    }

    /// Finalize a node in the tree. This method will make sure that the node
    /// being finalized is either an existing root (and return its data), or a
    /// node from a competing branch (not in the tree), tree pruning is done
    /// accordingly. The given function `is_descendent_of` should return `true`
    /// if the second hash (target) is a descendent of the first hash (base).
    pub fn finalize<F, E>(&mut self, hash: &H, number: N, is_descendent_of: &F) -> (r: Result<
        FinalizationResult<V>,
        Error<E>,
    >) where F: Fn(&H, &H) -> Result<bool, E>
        requires
            model::answers_all(*is_descendent_of),
        ensures
            forall|d: spec_fn(H, H) -> Result<bool, E>| #[trigger]
                model::decides::<H, N, E, F>(*is_descendent_of, d) ==> (final(self)@, r)
                    == finalization::finalized(old(self)@, *hash, number, d),
            match r {
                Ok(FinalizationResult::Changed(Some(data))) => exists|i: int|
                    0 <= i < old(self)@.roots.len() && data == (
                    #[trigger] old(self)@.roots[i]).data && final(self)@ == finalization::opened(
                        old(self)@,
                        i,
                    ),
                Ok(FinalizationResult::Changed(None)) => {
                    &&& final(self)@.best_finalized_number == Some(number)
                    &&& final(self)@.roots.len() < old(self)@.roots.len()
                    &&& model::is_picked_from(final(self)@.roots, old(self)@.roots)
                },
                Ok(FinalizationResult::Unchanged) => {
                    &&& final(self)@.best_finalized_number == Some(number)
                    &&& final(self)@.roots == old(self)@.roots
                },
                Err(_) => final(self)@ == old(self)@,
            },
            r matches Err(Error::Client(e)) ==> model::fails_with(*is_descendent_of, *hash, e),
    {
        let ghost given = self@;
        if self.reverts(&number) {
            return Err(Error::Revert);
        }
        // check if one of the current roots is being finalized
        if let Some(root) = self.finalize_root(hash) {
            return Ok(FinalizationResult::Changed(Some(root)));
        }
        // make sure we're not finalizing a descendent of any root
        let mut i: usize = 0;
        while i < self.roots.len()
            invariant
                model::answers_all(*is_descendent_of),
                i <= self.roots@.len(),
                self@ == given,
                given == old(self)@,
                forall|d: spec_fn(H, H) -> Result<bool, E>| #[trigger]
                    model::decides::<H, N, E, F>(*is_descendent_of, d) ==> {
                        &&& !finalization::reverts(given, number)
                        &&& finalization::first_with_hash(given.roots, 0, *hash) is None
                        &&& finalization::unfinalized_ancestor(given.roots, 0, *hash, number, d)
                            == finalization::unfinalized_ancestor(
                            given.roots,
                            i as int,
                            *hash,
                            number,
                            d,
                        )
                    },
            decreases self.roots@.len() - i,
        {
            let root = &self.roots[i];
            assert(root@ == given.roots[i as int]);
            if number > root.number {
                match is_descendent_of(&root.hash, hash) {
                    Ok(true) => {
                        return Err(Error::UnfinalizedAncestor);
                    },
                    Ok(false) => {},
                    Err(e) => {
                        return Err(Error::Client(e));
                    },
                }
            }
            i = i + 1;
        }
        // we finalized a block earlier than any existing root (or possibly
        // another fork not part of the tree). make sure to only keep roots that
        // are part of the finalized branch
        let mut changed: bool = false;
        let ghost mut kept: Seq<int> = Seq::empty();
        let mut roots: Vec<Node<H, N, V>> = Vec::new();
        let mut old_roots: Vec<Node<H, N, V>> = Vec::new();
        std::mem::swap(&mut self.roots, &mut old_roots);
        proof {
            assert(given.roots.take(0) =~= Seq::empty());
            assert forall|d: spec_fn(H, H) -> Result<bool, E>| #[trigger]
                model::decides::<H, N, E, F>(*is_descendent_of, d) implies node::branches(roots@)
                == given.roots.take(0).filter(
                |b: Branch<H, N, V>| finalization::is_descendant(b, *hash, number, d),
            ) by {
                reveal(Seq::filter);
                assert(node::branches(roots@) =~= Seq::empty());
            }
        }
        for root in nodes: old_roots
            invariant
                model::answers_all(*is_descendent_of),
                nodes.seq() == old_roots@,
                node::branches(old_roots@) == given.roots,
                model::picks(given.roots, kept, node::branches(roots@)),
                forall|j: int| 0 <= j < kept.len() ==> #[trigger] kept[j] < nodes.index(),
                roots@.len() <= nodes.index(),
                changed == (roots@.len() < nodes.index()),
                !changed ==> roots@ == old_roots@.take(nodes.index()),
                forall|d: spec_fn(H, H) -> Result<bool, E>| #[trigger]
                    model::decides::<H, N, E, F>(*is_descendent_of, d) ==> node::branches(roots@)
                        == given.roots.take(nodes.index()).filter(
                        |b: Branch<H, N, V>| finalization::is_descendant(b, *hash, number, d),
                    ),
        {
            let ghost k = nodes.index();
            let ghost before = roots@;
            let retain = root.number > number && match is_descendent_of(hash, &root.hash) {
                Ok(answer) => answer,
                Err(_) => false,
            };
            proof {
                assert(root@ == given.roots[k]);
                assert(given.roots.take(k + 1).drop_last() =~= given.roots.take(k));
                assert(given.roots.take(k + 1).last() == root@);
                reveal(Seq::filter);
                assert(node::branches(before.push(root)) =~= node::branches(before).push(root@));
                assert(old_roots@.take(k + 1) =~= old_roots@.take(k).push(root));
            }
            if retain {
                roots.push(root);
                proof {
                    kept = kept.push(k);
                }
            } else {
                changed = true;
            }
        }
        proof {
            assert(old_roots@.take(old_roots@.len() as int) =~= old_roots@);
            assert(given.roots.take(given.roots.len() as int) =~= given.roots);
            assert(model::is_picked_from(node::branches(roots@), given.roots));
        }
        self.roots = roots;
        self.best_finalized_number = Some(number);
        if changed {
            Ok(FinalizationResult::Changed(None))
        } else {
            Ok(FinalizationResult::Unchanged)
        }
    }

    /// Finalize a node in the tree and all its ancestors. The given function
    /// `is_descendent_of` should return `true` if the second hash (target) is
    /// a descendent of the first hash (base).
    pub fn finalize_with_ancestors<F, E>(
        &mut self,
        hash: &H,
        number: N,
        is_descendent_of: &F,
    ) -> (r: Result<FinalizationResult<V>, Error<E>>) where F: Fn(&H, &H) -> Result<bool, E>
        requires
            model::answers_all(*is_descendent_of),
        ensures
            forall|d: spec_fn(H, H) -> Result<bool, E>| #[trigger]
                model::decides::<H, N, E, F>(*is_descendent_of, d) ==> (final(self)@, r)
                    == finalization::finalized_with_ancestors(old(self)@, *hash, number, d),
            match r {
                Ok(FinalizationResult::Changed(Some(data))) => exists|path: Seq<int>|
                    {
                        let node = model::node_at(old(self)@.roots, path);
                        &&& #[trigger] model::is_path(old(self)@.roots, path)
                        &&& data == node.data
                        &&& final(self)@ == (Forest {
                            roots: node.children,
                            best_finalized_number: Some(node.number),
                        })
                    },
                Ok(FinalizationResult::Changed(None)) => {
                    &&& final(self)@.best_finalized_number == Some(number)
                    &&& model::walk_all(final(self)@.roots).len() < model::walk_all(
                        old(self)@.roots,
                    ).len()
                    &&& contents::contents(final(self)@.roots).subset_of(
                        contents::contents(old(self)@.roots),
                    )
                    &&& forall|k: int|
                        0 <= k < final(self)@.roots.len() ==> model::is_node(
                            old(self)@.roots,
                            #[trigger] final(self)@.roots[k],
                        )
                },
                Ok(FinalizationResult::Unchanged) => {
                    &&& final(self)@.best_finalized_number == Some(number)
                    &&& final(self)@.roots == old(self)@.roots
                },
                Err(e) => e is Revert && final(self)@ == old(self)@,
            },
    {
        let ghost given = self@;
        if self.reverts(&number) {
            return Err(Error::Revert);
        }
        // check if one of the current roots is being finalized
        if let Some(root) = self.finalize_root(hash) {
            proof {
                let i = choose|i: int|
                    0 <= i < given.roots.len() && root == (#[trigger] given.roots[i]).data && self@
                        == finalization::opened(given, i);
                assert(model::is_path(given.roots, seq![i]));
                assert(model::node_at(given.roots, seq![i]) == given.roots[i]);
            }
            return Ok(FinalizationResult::Changed(Some(root)));
        }
        // we need to:
        // 1) remove all roots that are not ancestors AND not descendants of finalized block;
        // 2) if node is descendant - just leave it;
        // 3) if node is ancestor - 'open it'
        proof {
            assert forall|k: int| 0 <= k < given.roots.len() implies model::is_node(
                given.roots,
                #[trigger] given.roots[k],
            ) by {
                trail::lemma_root_is_node(given.roots, k);
            }
        }
        let mut changed: bool = false;
        let mut idx: usize = 0;
        while idx < self.roots.len()
            invariant
                model::answers_all(*is_descendent_of),
                idx <= self.roots@.len(),
                given == old(self)@,
                self@.best_finalized_number == given.best_finalized_number,
                !changed ==> self@.roots == given.roots,
                changed ==> model::walk_all(self@.roots).len() < model::walk_all(
                    given.roots,
                ).len(),
                contents::contents(self@.roots).subset_of(contents::contents(given.roots)),
                forall|k: int|
                    0 <= k < self@.roots.len() ==> model::is_node(
                        given.roots,
                        #[trigger] self@.roots[k],
                    ),
                forall|d: spec_fn(H, H) -> Result<bool, E>| #[trigger]
                    model::decides::<H, N, E, F>(*is_descendent_of, d) ==> {
                        &&& !finalization::reverts(given, number)
                        &&& finalization::first_with_hash(given.roots, 0, *hash) is None
                        &&& finalization::open_ancestors(
                            given.roots,
                            0,
                            false,
                            *hash,
                            number,
                            d,
                        ) == finalization::open_ancestors(
                            self@.roots,
                            idx as int,
                            changed,
                            *hash,
                            number,
                            d,
                        )
                    },
            decreases model::walk_all(self@.roots.skip(idx as int)).len(),
        {
            let ghost before = self@.roots;
            let ghost at = idx as int;
            let root = &self.roots[idx];
            assert(root@ == before[at]);
            proof {
                finalization::lemma_open_shrinks(before, at);
                contents::lemma_contents_swap_removed(before, at);
                contents::lemma_contents_add(
                    finalization::swap_removed(before, at),
                    before[at].children,
                );
            }
            // if we have met finalized root - open it and return
            if root.hash == *hash {
                let data = self.finalize_root_at(idx);
                proof {
                    assert(model::is_node(given.roots, before[at]));
                }
                return Ok(FinalizationResult::Changed(Some(data)));
            }
            let is_descendant = root.number > number && match is_descendent_of(hash, &root.hash) {
                Ok(answer) => answer,
                Err(_) => false,
            };
            let is_ancestor = !is_descendant && root.number < number && match is_descendent_of(
                &root.hash,
                hash,
            ) {
                Ok(answer) => answer,
                Err(_) => false,
            };
            if is_descendant {
                // if node is descendant of finalized block - just leave it as is
                idx = idx + 1;
            } else {
                let Node { hash: _, number: _, data: _, mut children } = self.roots.swap_remove(
                    idx,
                );
                changed = true;
                assert(self@.roots =~= finalization::swap_removed(before, at));
                assert forall|k: int| 0 <= k < self@.roots.len() implies model::is_node(
                    given.roots,
                    #[trigger] self@.roots[k],
                ) by {
                    assert(self@.roots[k] == before[if k == at { before.len() - 1 } else { k }]);
                }
                // if node is ancestor of finalized block - remove it and continue with children;
                // if node is neither ancestor, nor descendant of the finalized block - remove it
                if is_ancestor {
                    let ghost less = self@.roots;
                    self.roots.append(&mut children);
                    assert(self@.roots =~= less + before[at].children);
                    assert forall|k: int| 0 <= k < self@.roots.len() implies model::is_node(
                        given.roots,
                        #[trigger] self@.roots[k],
                    ) by {
                        if k < less.len() {
                            assert(self@.roots[k] == less[k]);
                        } else {
                            assert(model::is_node(given.roots, before[at]));
                            trail::lemma_child_is_node(given.roots, before[at], k - less.len());
                        }
                    }
                }
            }
        }
        self.best_finalized_number = Some(number);
        if changed {
            Ok(FinalizationResult::Changed(None))
        } else {
            Ok(FinalizationResult::Unchanged)
        }
    }

    /// Checks if any node in the tree is finalized by either finalizing the
    /// node itself or a child node that's not in the tree, guaranteeing that
    /// the node being finalized isn't a descendent of any of the node's
    /// children. Returns `Some(true)` if the node being finalized is a root,
    /// `Some(false)` if the node being finalized is not a root, and `None` if
    /// no node in the tree is finalized. The given `predicate` is checked on
    /// the prospective finalized root and must pass for finalization to occur.
    /// The given function `is_descendent_of` should return `true` if the second
    /// hash (target) is a descendent of the first hash (base). It is only asked
    /// about nodes that pass the predicate, and about their children.
    pub fn finalizes_any_with_descendent_if<F, P, E>(
        &self,
        hash: &H,
        number: N,
        is_descendent_of: &F,
        predicate: P,
    ) -> (r: Result<Option<bool>, Error<E>>) where
        F: Fn(&H, &H) -> Result<bool, E>,
        P: Fn(&V) -> bool,

        requires
            model::tests_all(predicate),
            forall|b: Branch<H, N, V>| #[trigger]
                model::walk_all(self@.roots).contains(b) ==> model::answers_if_passed(
                    *is_descendent_of,
                    predicate,
                    b,
                    *hash,
                ),
        ensures
            forall|d: spec_fn(H, H) -> Result<bool, E>, q: spec_fn(V) -> bool| #[trigger]
                model::decides::<H, N, E, F>(*is_descendent_of, d) && #[trigger] model::selects(
                    predicate,
                    q,
                ) ==> r == finalization::finalizes_any(self@, *hash, number, d, q),
            r matches Ok(Some(_)) ==> exists|node: Branch<H, N, V>|
                model::walk_all(self@.roots).contains(node) && #[trigger] call_ensures(
                    predicate,
                    (&node.data,),
                    true,
                ),
            r matches Err(Error::Client(e)) ==> model::fails_with(*is_descendent_of, *hash, e),
    {
        if self.reverts(&number) {
            return Err(Error::Revert);
        }
        // check if the given hash is equal or a descendent of any node in the
        // tree, if we find a valid node that passes the predicate then we must
        // ensure that we're not finalizing past any of its child nodes.
        let mut nodes = self.node_iter();
        let ghost all = nodes.rest();
        let ghost mut k: int = 0;
        loop
            invariant
                model::tests_all(predicate),
                forall|b: Branch<H, N, V>| #[trigger]
                    model::walk_all(self@.roots).contains(b) ==> model::answers_if_passed(
                        *is_descendent_of,
                        predicate,
                        b,
                        *hash,
                    ),
                all == model::walk_all(self@.roots),
                0 <= k <= all.len(),
                nodes.rest() == all.skip(k),
                forall|d: spec_fn(H, H) -> Result<bool, E>, q: spec_fn(V) -> bool| #[trigger]
                    model::decides::<H, N, E, F>(*is_descendent_of, d) && #[trigger] model::selects(
                        predicate,
                        q,
                    ) ==> {
                        &&& !finalization::reverts(self@, number)
                        &&& finalization::first_finalized(all, 0, *hash, number, d, q)
                            == finalization::first_finalized(all, k, *hash, number, d, q)
                    },
            ensures
                k == all.len(),
            decreases all.len() - k,
        {
            match nodes.next() {
                Some(node) => {
                    proof {
                        assert(all.skip(k)[0] == node@);
                        assert(all[k] == node@);
                        assert(all.skip(k).drop_first() =~= all.skip(k + 1));
                        assert((seq![node@] + nodes.rest()).drop_first() =~= nodes.rest());
                        assert(all.contains(node@));
                    }
                    match finalizes(node, hash, &number, is_descendent_of, &predicate) {
                        Ok(true) => {
                            let is_root = self.has_root(&node.hash);
                            return Ok(Some(is_root));
                        },
                        Ok(false) => {},
                        Err(e) => {
                            return Err(e);
                        },
                    }
                    proof {
                        k = k + 1;
                    }
                },
                None => {
                    break;
                },
            }
        }
        Ok(None)
    }

    /// Whether any of the roots has the given hash.
    fn has_root(&self, hash: &H) -> (r: bool)
        ensures
            model::lawful_keys::<H, N>() ==> r == exists|k: int|
                0 <= k < self@.roots.len() && (#[trigger] self@.roots[k]).hash.is_eq(hash),
    {
        let mut i: usize = 0;
        while i < self.roots.len()
            invariant
                i <= self.roots@.len(),
                model::lawful_keys::<H, N>() ==> forall|k: int|
                    0 <= k < i ==> !(#[trigger] self@.roots[k]).hash.is_eq(hash),
            decreases self.roots@.len() - i,
        {
            assert(self@.roots[i as int] == self.roots@[i as int]@);
            if self.roots[i].hash == *hash {
                return true;
            }
            i = i + 1;
        }
        false
    }

    /// Finalize a root in the tree by either finalizing the node itself or a
    /// child node that's not in the tree, guaranteeing that the node being
    /// finalized isn't a descendent of any of the root's children. The given
    /// `predicate` is checked on the prospective finalized root and must pass for
    /// finalization to occur. The given function `is_descendent_of` should
    /// return `true` if the second hash (target) is a descendent of the first
    /// hash (base). As long as a root is looked for, it is only asked about roots
    /// that pass the predicate, and about their children; after that about the
    /// roots of which some may have to go.
    pub fn finalize_with_descendent_if<F, P, E>(
        &mut self,
        hash: &H,
        number: N,
        is_descendent_of: &F,
        predicate: P,
    ) -> (r: Result<FinalizationResult<V>, Error<E>>) where
        F: Fn(&H, &H) -> Result<bool, E>,
        P: Fn(&V) -> bool,

        requires
            model::tests_all(predicate),
            forall|i: int|
                0 <= i < old(self)@.roots.len() ==> model::answers_if_passed(
                    *is_descendent_of,
                    predicate,
                    #[trigger] old(self)@.roots[i],
                    *hash,
                ),
            forall|i: int|
                0 <= i < old(self)@.roots.len() && call_ensures(
                    predicate,
                    (&(#[trigger] old(self)@.roots[i]).data,),
                    true,
                ) ==> model::answers_both_ways(
                    *is_descendent_of,
                    old(self)@.roots[i].children,
                    *hash,
                ),
            (forall|i: int|
                0 <= i < old(self)@.roots.len() ==> model::may_be_passed_over(
                    *is_descendent_of,
                    predicate,
                    #[trigger] old(self)@.roots[i],
                    *hash,
                )) ==> model::answers_both_ways(*is_descendent_of, old(self)@.roots, *hash),
        ensures
            forall|d: spec_fn(H, H) -> Result<bool, E>, q: spec_fn(V) -> bool| #[trigger]
                model::decides::<H, N, E, F>(*is_descendent_of, d) && #[trigger] model::selects(
                    predicate,
                    q,
                ) ==> (final(self)@, r) == finalization::finalized_with_descendent(
                    old(self)@,
                    *hash,
                    number,
                    d,
                    q,
                ),
            match r {
                Ok(FinalizationResult::Changed(Some(data))) => {
                    &&& final(self)@.best_finalized_number == Some(number)
                    &&& call_ensures(predicate, (&data,), true)
                    &&& exists|i: int|
                        0 <= i < old(self)@.roots.len() && data == (
                        #[trigger] old(self)@.roots[i]).data && model::is_picked_from(
                            final(self)@.roots,
                            old(self)@.roots[i].children,
                        )
                },
                Ok(FinalizationResult::Changed(None)) => {
                    &&& final(self)@.best_finalized_number == Some(number)
                    &&& final(self)@.roots.len() < old(self)@.roots.len()
                    &&& model::is_picked_from(final(self)@.roots, old(self)@.roots)
                },
                Ok(FinalizationResult::Unchanged) => {
                    &&& final(self)@.best_finalized_number == Some(number)
                    &&& final(self)@.roots == old(self)@.roots
                },
                Err(_) => final(self)@ == old(self)@,
            },
            r matches Err(Error::Client(e)) ==> model::fails_with(*is_descendent_of, *hash, e),
    {
        let ghost given = self@;
        if self.reverts(&number) {
            return Err(Error::Revert);
        }
        // check if the given hash is equal or a a descendent of any root, if we
        // find a valid root that passes the predicate then we must ensure that
        // we're not finalizing past any children node.
        let mut position: Option<usize> = None;
        let mut i: usize = 0;
        while i < self.roots.len() && position.is_none()
            invariant
                model::tests_all(predicate),
                i <= self.roots@.len(),
                self@ == given,
                given == old(self)@,
                forall|k: int|
                    0 <= k < given.roots.len() ==> model::answers_if_passed(
                        *is_descendent_of,
                        predicate,
                        #[trigger] given.roots[k],
                        *hash,
                    ),
                position is None ==> forall|k: int|
                    0 <= k < i ==> model::may_be_passed_over(
                        *is_descendent_of,
                        predicate,
                        #[trigger] given.roots[k],
                        *hash,
                    ),
                position matches Some(p) ==> p < given.roots.len() && call_ensures(
                    predicate,
                    (&given.roots[p as int].data,),
                    true,
                ),
                forall|d: spec_fn(H, H) -> Result<bool, E>, q: spec_fn(V) -> bool| #[trigger]
                    model::decides::<H, N, E, F>(*is_descendent_of, d) && #[trigger] model::selects(
                        predicate,
                        q,
                    ) ==> {
                        &&& !finalization::reverts(given, number)
                        &&& finalization::first_finalized(given.roots, 0, *hash, number, d, q)
                            == match position {
                            Some(p) => Ok::<_, Error<E>>(Some(p as int)),
                            None => finalization::first_finalized(
                                given.roots,
                                i as int,
                                *hash,
                                number,
                                d,
                                q,
                            ),
                        }
                    },
            decreases self.roots@.len() - i,
        {
            let root = &self.roots[i];
            assert(root@ == given.roots[i as int]);
            match finalizes(root, hash, &number, is_descendent_of, &predicate) {
                Ok(true) => {
                    position = Some(i);
                },
                Ok(false) => {},
                Err(e) => {
                    return Err(e);
                },
            }
            i = i + 1;
        }
        let node_data = match position {
            Some(p) => Some(self.finalize_root_at(p)),
            None => None,
        };
        // if the block being finalized is earlier than a given root, then it
        // must be its ancestor, otherwise we can prune the root. if there's a
        // root at the same height then the hashes must match. otherwise the
        // node being finalized is higher than the root so it must be its
        // descendent (in this case the node wasn't finalized earlier presumably
        // because the predicate didn't pass).
        let ghost candidates = self@.roots;
        assert(model::answers_both_ways(*is_descendent_of, candidates, *hash));
        let ghost mut kept: Seq<int> = Seq::empty();
        let mut changed: bool = false;
        let mut roots: Vec<Node<H, N, V>> = Vec::new();
        let mut old_roots: Vec<Node<H, N, V>> = Vec::new();
        std::mem::swap(&mut self.roots, &mut old_roots);
        proof {
            assert(candidates.take(0) =~= Seq::empty());
            assert forall|d: spec_fn(H, H) -> Result<bool, E>| #[trigger]
                model::decides::<H, N, E, F>(*is_descendent_of, d) implies node::branches(roots@)
                == candidates.take(0).filter(
                |b: Branch<H, N, V>| finalization::agrees(b, *hash, number, d),
            ) by {
                reveal(Seq::filter);
                assert(node::branches(roots@) =~= Seq::empty());
            }
        }
        for root in nodes: old_roots
            invariant
                model::answers_both_ways(*is_descendent_of, candidates, *hash),
                nodes.seq() == old_roots@,
                node::branches(old_roots@) == candidates,
                model::picks(candidates, kept, node::branches(roots@)),
                forall|j: int| 0 <= j < kept.len() ==> #[trigger] kept[j] < nodes.index(),
                roots@.len() <= nodes.index(),
                changed == (roots@.len() < nodes.index()),
                !changed ==> roots@ == old_roots@.take(nodes.index()),
                forall|d: spec_fn(H, H) -> Result<bool, E>| #[trigger]
                    model::decides::<H, N, E, F>(*is_descendent_of, d) ==> node::branches(roots@)
                        == candidates.take(nodes.index()).filter(
                        |b: Branch<H, N, V>| finalization::agrees(b, *hash, number, d),
                    ),
        {
            let ghost k = nodes.index();
            let ghost before = roots@;
            assert(root@ == candidates[k]);
            let retain = root.number > number && match is_descendent_of(hash, &root.hash) {
                Ok(answer) => answer,
                Err(_) => false,
            } || root.number == number && root.hash == *hash || match is_descendent_of(
                &root.hash,
                hash,
            ) {
                Ok(answer) => answer,
                Err(_) => false,
            };
            proof {
                assert(candidates.take(k + 1).drop_last() =~= candidates.take(k));
                assert(candidates.take(k + 1).last() == root@);
                reveal(Seq::filter);
                assert(node::branches(before.push(root)) =~= node::branches(before).push(root@));
                assert(old_roots@.take(k + 1) =~= old_roots@.take(k).push(root));
            }
            if retain {
                roots.push(root);
                proof {
                    kept = kept.push(k);
                }
            } else {
                changed = true;
            }
        }
        proof {
            assert(old_roots@.take(old_roots@.len() as int) =~= old_roots@);
            assert(candidates.take(candidates.len() as int) =~= candidates);
            assert(model::is_picked_from(node::branches(roots@), candidates));
        }
        self.roots = roots;
        self.best_finalized_number = Some(number);
        match node_data {
            Some(data) => Ok(FinalizationResult::Changed(Some(data))),
            None => if changed {
                Ok(FinalizationResult::Changed(None))
            } else {
                Ok(FinalizationResult::Unchanged)
            },
        }
    }
}

impl<H: PartialEq + Clone, N: Ord + Clone, V: Clone> ForkTree<H, N, V> {
    /// Prune the tree, removing all non-canonical nodes. We find the node in the
    /// tree that is the deepest ancestor of the given hash and that passes the
    /// given predicate. If such a node exists, we re-root the tree to this
    /// node. Otherwise the tree remains unchanged. The given function
    /// `is_descendent_of` should return `true` if the second hash (target) is a
    /// descendent of the first hash (base).
    ///
    /// Returns all pruned node data.
    pub fn prune<F, E, P>(
        &mut self,
        hash: &H,
        number: &N,
        is_descendent_of: &F,
        predicate: &P,
    ) -> (r: Result<Vec<(H, N, V)>, Error<E>>) where
        F: Fn(&H, &H) -> Result<bool, E>,
        P: Fn(&V) -> bool,

        requires
            model::answers_all(*is_descendent_of),
            model::tests_all(*predicate),
        ensures
            forall|d: spec_fn(H, H) -> Result<bool, E>, q: spec_fn(V) -> bool| #[trigger]
                model::decides::<H, N, E, F>(*is_descendent_of, d) && #[trigger] model::selects(
                    *predicate,
                    q,
                ) ==> {
                    let (after, removed) = finalization::pruned(
                        old(self)@,
                        *hash,
                        *number,
                        d,
                        q,
                    );
                    &&& final(self)@ == after
                    &&& match removed {
                        Ok(parts) => r matches Ok(v) && v@ == parts,
                        Err(e) => r == Err::<Vec<(H, N, V)>, _>(e),
                    }
                },
            match r {
                Ok(parts) => {
                    &&& contents::contents(old(self)@.roots) == contents::contents(
                        final(self)@.roots,
                    ).add(parts@.to_multiset())
                    &&& final(self)@.best_finalized_number == old(self)@.best_finalized_number
                },
                Err(_) => final(self)@ == old(self)@,
            },
            r matches Err(Error::Client(e)) ==> model::fails_with(*is_descendent_of, *hash, e),
    {
        let ghost given = self@;
        let path = match self.find_node_index_where(hash, number, is_descendent_of, predicate) {
            Ok(Some(path)) => path,
            Ok(None) => {
                let r: Vec<(H, N, V)> = Vec::new();
                proof {
                    assert(r@ =~= Seq::empty());
                    r@.to_multiset_ensures();
                    let held = contents::contents(given.roots);
                    assert(held.add(r@.to_multiset()) =~= held);
                }
                return Ok(r);
            },
            Err(e) => {
                return Err(e);
            },
        };
        let ghost full = model::indices(path@);
        let ghost found = model::node_at(given.roots, full);
        let mut removed: Vec<Node<H, N, V>> = Vec::new();
        std::mem::swap(&mut self.roots, &mut removed);
        let Node { hash: root_hash, number: root_number, data, children: root_children } =
            node::take_at(&mut removed, path);
        let ghost cut = node::branches(removed@);
        assert(node::branches(root_children@) =~= found.children);
        // we found the deepest ancestor of the finalized block, so we prune
        // out any children that don't include the finalized block.
        let mut children: Vec<Node<H, N, V>> = Vec::new();
        let mut is_first: bool = true;
        let ghost mut heir: Option<int> = None;
        assert(node::branches(removed@) =~= cut + finalization::disowned(
            Branch { children: found.children.take(0), ..found },
            heir,
        ));
        for child in nodes: root_children
            invariant
                model::answers_all(*is_descendent_of),
                nodes.seq() == root_children@,
                node::branches(root_children@) == found.children,
                is_first == (heir is None),
                heir matches Some(h) ==> 0 <= h < nodes.index(),
                node::branches(children@) == finalization::inherited(found, heir).children,
                node::branches(removed@) == cut + finalization::disowned(
                    Branch { children: found.children.take(nodes.index()), ..found },
                    heir,
                ),
                forall|d: spec_fn(H, H) -> Result<bool, E>| #[trigger]
                    model::decides::<H, N, E, F>(*is_descendent_of, d) ==> finalization::heir(
                        found.children,
                        0,
                        *hash,
                        *number,
                        d,
                    ) == match heir {
                        Some(h) => heir,
                        None => finalization::heir(
                            found.children,
                            nodes.index(),
                            *hash,
                            *number,
                            d,
                        ),
                    },
        {
            let ghost k = nodes.index();
            let ghost so_far = found.children.take(k);
            let ghost before = node::branches(removed@);
            proof {
                assert(child@ == found.children[k]);
                assert(found.children.take(k + 1) =~= so_far.push(child@));
            }
            if is_first && (child.number == *number && child.hash == *hash || child.number
                < *number && match is_descendent_of(&child.hash, hash) {
                Ok(answer) => answer,
                Err(_) => false,
            }) {
                // assuming that the tree is well formed only one child should pass this requirement
                // due to ancestry restrictions (i.e. they must be different forks).
                let ghost one = child@;
                children.push(child);
                is_first = false;
                proof {
                    heir = Some(k);
                    assert(node::branches(children@) =~= seq![one]);
                    assert(so_far.push(one).remove(k) =~= so_far);
                }
            } else {
                let ghost one = child@;
                removed.push(child);
                proof {
                    assert(node::branches(removed@) =~= before.push(one));
                    if let Some(h) = heir {
                        assert(so_far.push(one).remove(h) =~= so_far.remove(h).push(one));
                    }
                }
            }
        }
        proof {
            assert(found.children.take(found.children.len() as int) =~= found.children);
        }
        let root = Node { hash: root_hash, number: root_number, data, children };
        assert(root@.children =~= node::branches(children@));
        assert(root@ == finalization::inherited(found, heir));
        self.roots.push(root);
        assert(self@.roots =~= seq![root@]);
        self.rebalance();
        proof {
            balance::lemma_rebalanced_one(root@);
            contents::lemma_contents_pruned(given.roots, full, heir);
        }
        Ok(RemovedIterator { stack: removed }.collect())
    }
}

} // verus!
