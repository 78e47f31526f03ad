//! A single node of the tree and the operations on what lies below it.

use vstd::prelude::*;
use vstd::std_specs::cmp::{PartialEqIs, PartialOrdIs};

use crate::balance;
use crate::error::{Error, FindOutcome};
use crate::model;
use crate::model::Branch;
use crate::placement;
use crate::placement::Placement;
use crate::search;
use crate::trail;

verus! {

/// A node of the tree, which owns its children.
#[derive(Debug, PartialEq)]
pub struct Node<H, N, V> {
    /// What identifies the node.
    pub hash: H,
    /// What orders the node against others.
    pub number: N,
    /// The value that the node carries.
    pub data: V,
    /// The nodes right below this one.
    pub children: Vec<Node<H, N, V>>,
}

impl<H, N, V> Node<H, N, V> {
    /// The node and its descendants as a mathematical value.
    pub open spec fn branch(self) -> Branch<H, N, V>
        decreases self,
    {
        Branch {
            hash: self.hash,
            number: self.number,
            data: self.data,
            children: Seq::new(
                self.children@.len(),
                |i: int|
                    if 0 <= i < self.children@.len() {
                        self.children@[i].branch()
                    } else {
                        arbitrary()
                    },
            ),
        }
    }
}

impl<H, N, V> View for Node<H, N, V> {
    type V = Branch<H, N, V>;

    open spec fn view(&self) -> Branch<H, N, V> {
        self.branch()
    }
}

/// Nodes as mathematical values.
pub open spec fn branches<H, N, V>(nodes: Seq<Node<H, N, V>>) -> Seq<Branch<H, N, V>> {
    nodes.map_values(|n: Node<H, N, V>| n@)
}

/// `c` may come out of cloning `b`, part by part.
pub open spec fn cloned_branch<H: Clone, N: Clone, V: Clone>(
    b: Branch<H, N, V>,
    c: Branch<H, N, V>,
) -> bool
    decreases b,
{
    &&& cloned(b.hash, c.hash)
    &&& cloned(b.number, c.number)
    &&& cloned(b.data, c.data)
    &&& b.children.len() == c.children.len()
    &&& forall|i: int|
        0 <= i < b.children.len() ==> cloned_branch(#[trigger] b.children[i], c.children[i])
}

/// A branch may come out of cloning itself.
pub proof fn lemma_cloned_branch<H: Clone, N: Clone, V: Clone>(b: Branch<H, N, V>)
    ensures
        cloned_branch(b, b),
    decreases b,
{
    assert forall|i: int| 0 <= i < b.children.len() implies cloned_branch(
        #[trigger] b.children[i],
        b.children[i],
    ) by {
        lemma_cloned_branch(b.children[i]);
    }
}

impl<H: Clone, N: Clone, V: Clone> Clone for Node<H, N, V> {
    fn clone(&self) -> (r: Self)
        ensures
            cloned_branch(self@, r@),
        decreases self,
    {
        let mut children: Vec<Node<H, N, V>> = Vec::new();
        let mut i: usize = 0;
        while i < self.children.len()
            invariant
                i <= self.children@.len(),
                children@.len() == i,
                forall|k: int|
                    0 <= k < i ==> cloned_branch(self.children@[k]@, (#[trigger] children@[k])@),
            decreases self.children@.len() - i,
        {
            let child = &self.children[i];
            children.push(child.clone());
            i = i + 1;
        }
        let r = Node {
            hash: self.hash.clone(),
            number: self.number.clone(),
            data: self.data.clone(),
            children,
        };
        assert forall|k: int| 0 <= k < self@.children.len() implies cloned_branch(
            #[trigger] self@.children[k],
            r@.children[k],
        ) by {
            assert(cloned_branch(self.children@[k]@, children@[k]@));
        }
        r
    }
}

/// What a search by index returned, with the path as a mathematical value.
pub open spec fn outcome<E>(r: Result<FindOutcome<Vec<usize>>, Error<E>>) -> Result<
    FindOutcome<Seq<int>>,
    Error<E>,
> {
    match r {
        Ok(FindOutcome::Found(path)) => Ok(FindOutcome::Found(model::indices(path@))),
        Ok(FindOutcome::Failure(touched)) => Ok(FindOutcome::Failure(touched)),
        Ok(FindOutcome::Abort) => Ok(FindOutcome::Abort),
        Err(e) => Err(e),
    }
}

/// The frames of a search as mathematical values.
spec fn frames<H, N, V>(stack: Seq<(&Node<H, N, V>, usize)>) -> Seq<(Branch<H, N, V>, int)> {
    stack.map_values(|f: (&Node<H, N, V>, usize)| (f.0@, f.1 as int))
}

/// The path to the node that the frame after the last one of `stack` was for.
fn path_of<H, N, V>(stack: &Vec<(&Node<H, N, V>, usize)>) -> (path: Vec<usize>)
    requires
        forall|k: int| 0 <= k < stack@.len() ==> (#[trigger] stack@[k]).1 > 0,
    ensures
        model::indices(path@) == trail::trail(frames(stack@)),
{
    let mut path: Vec<usize> = Vec::new();
    let mut k: usize = stack.len();
    while k > 0
        invariant
            k <= stack@.len(),
            path@.len() == stack@.len() - k,
            forall|j: int| 0 <= j < stack@.len() ==> (#[trigger] stack@[j]).1 > 0,
            forall|j: int|
                0 <= j < path@.len() ==> #[trigger] path@[j] == stack@[stack@.len() - 1 - j].1 - 1,
        decreases k,
    {
        k = k - 1;
        path.push(stack[k].1 - 1);
    }
    assert(model::indices(path@) =~= trail::trail(frames(stack@)));
    path
}

/// A node without children.
pub(crate) fn leaf<H, N, V>(hash: H, number: N, data: V) -> (r: Node<H, N, V>)
    ensures
        r@ == model::leaf(hash, number, data),
{
    let r = Node { hash, number, data, children: Vec::new() };
    assert(r@.children =~= Seq::empty());
    r
}

/// Sort nodes by max branch depth (decreasing). Nodes of the same depth keep
/// their order.
fn sort_by_depth<H: PartialEq, N: Ord, V>(nodes: &mut Vec<Node<H, N, V>>)
    ensures
        branches(final(nodes)@) == balance::ordered(branches(old(nodes)@)),
{
    let ghost given = branches(nodes@);
    let mut depths: Vec<usize> = Vec::new();
    let mut i: usize = 0;
    assert(branches(nodes@).take(0) =~= balance::ordered(given.take(0)));
    while i < nodes.len()
        invariant
            i <= nodes@.len(),
            nodes@.len() == given.len(),
            depths@.len() == i,
            branches(nodes@).take(i as int) == balance::ordered(given.take(i as int)),
            branches(nodes@).skip(i as int) == given.skip(i as int),
            forall|k: int|
                0 <= k < i ==> #[trigger] depths@[k] == balance::rank(nodes@[k]@),
        decreases nodes@.len() - i,
    {
        let ghost before = branches(nodes@);
        let ghost sorted = before.take(i as int);
        let depth: usize = nodes[i].max_depth();
        let mut j: usize = i;
        while j > 0 && depths[j - 1] < depth
            invariant
                j <= i,
                depths@.len() == i,
                forall|k: int| j <= k < i ==> #[trigger] depths@[k] < depth,
            decreases j,
        {
            j = j - 1;
        }
        proof {
            assert(before[i as int] == before.skip(i as int)[0]);
            assert(before[i as int] == given[i as int]);
            assert(depth == balance::rank(before[i as int]));
            assert forall|k: int| j <= k < sorted.len() implies balance::rank(#[trigger] sorted[k])
                < balance::rank(given[i as int]) by {
                assert(depths@[k] < depth);
            }
            if j > 0 {
                assert(depths@[j - 1] >= depth);
                assert(sorted[j - 1] == before[j - 1]);
            }
            balance::lemma_slot_in(sorted, given[i as int], j as int);
            assert(given.take(i + 1).drop_last() =~= given.take(i as int));
            assert(given.take(i + 1).last() == given[i as int]);
        }
        if j < i {
            let node = nodes.remove(i);
            nodes.insert(j, node);
        }
        depths.insert(j, depth);
        proof {
            assert(branches(nodes@).take(i + 1) =~= sorted.insert(j as int, given[i as int]));
            assert forall|k: int| i + 1 <= k < given.len() implies branches(nodes@)[k]
                == given[k] by {
                assert(before[k] == before.skip(i as int)[k - i]);
                assert(given[k] == given.skip(i as int)[k - i]);
            }
            assert(branches(nodes@).skip(i + 1) =~= given.skip(i + 1));
        }
        i = i + 1;
    }
    assert(branches(nodes@).take(i as int) =~= branches(nodes@));
    assert(given.take(i as int) =~= given);
}

/// Rebalance all the given nodes, i.e. sort siblings on every level by max
/// branch depth (decreasing).
pub(crate) fn rebalance_all<H: PartialEq, N: Ord, V>(nodes: &mut Vec<Node<H, N, V>>)
    ensures
        branches(final(nodes)@) == balance::rebalanced_all(branches(old(nodes)@)),
    decreases old(nodes)@,
{
    let ghost given = nodes@;
    let mut i: usize = 0;
    while i < nodes.len()
        invariant
            i <= nodes@.len(),
            nodes@.len() == given.len(),
            given == old(nodes)@,
            forall|k: int| i <= k < given.len() ==> #[trigger] nodes@[k] == given[k],
            forall|k: int|
                0 <= k < i ==> (#[trigger] nodes@[k])@ == balance::rebalanced(given[k]@),
        decreases nodes@.len() - i,
    {
        nodes[i].rebalance();
        i = i + 1;
    }
    assert(branches(nodes@) =~= balance::rebalanced_each(branches(given)));
    sort_by_depth(nodes);
}

/// The node that `path` leads to.
fn follow<H, N, V>(node: &Node<H, N, V>, path: Vec<usize>) -> (r: &Node<H, N, V>)
    requires
        model::is_path_from(node@, model::indices(path@)),
    ensures
        r@ == model::node_from(node@, model::indices(path@)),
{
    let mut path = path;
    let mut cur = node;
    let ghost target = model::node_from(node@, model::indices(path@));
    while path.len() > 0
        invariant
            model::is_path_from(cur@, model::indices(path@)),
            target == model::node_from(cur@, model::indices(path@)),
        decreases path@.len(),
    {
        let ghost rest = model::indices(path@);
        let last: usize = path.len() - 1;
        let i: usize = path[last];
        path.truncate(last);
        assert(model::indices(path@) =~= rest.drop_last());
        assert(rest.last() == i);
        cur = &cur.children[i];
    }
    cur
}

/// The node that `path` leads to, to be changed in place.
pub(crate) fn follow_mut<H, N, V>(node: &mut Node<H, N, V>, path: Vec<usize>) -> (r: &mut Node<H, N, V>)
    requires
        model::is_path_from(old(node)@, model::indices(path@)),
    ensures
        (*r)@ == model::node_from(old(node)@, model::indices(path@)),
        (*final(node))@ == model::put_from(
            old(node)@,
            model::indices(path@),
            (*final(r))@,
        ),
{
    let mut path = path;
    let ghost whole = (*node)@;
    let ghost full = model::indices(path@);
    let mut cur = node;
    let ghost last_value = *final(cur);
    // what becomes of the whole once the current node has got its last value
    let ghost mut rebuilt: spec_fn(Branch<H, N, V>) -> Branch<H, N, V> = |b: Branch<H, N, V>| b;
    while path.len() > 0
        invariant
            model::is_path_from((*cur)@, model::indices(path@)),
            model::node_from(whole, full) == model::node_from((*cur)@, model::indices(path@)),
            last_value@ == rebuilt((*final(cur))@),
            forall|b: Branch<H, N, V>|
                model::put_from(whole, full, b) == rebuilt(
                    #[trigger] model::put_from((*cur)@, model::indices(path@), b),
                ),
        decreases path@.len(),
    {
        let ghost rest = model::indices(path@);
        let ghost here = *cur;
        let ghost here_last = *final(cur);
        let ghost outer = rebuilt;
        let last: usize = path.len() - 1;
        let i: usize = path[last];
        path.truncate(last);
        proof {
            assert(model::indices(path@) =~= rest.drop_last());
            assert(rest.last() == i);
            rebuilt = |b: Branch<H, N, V>|
                outer(
                    Branch { children: here@.children.update(i as int, b), ..here@ },
                );
        }
        cur = &mut cur.children[i];
        proof {
            assert(here_last.children@ == here.children@.update(i as int, *final(cur)));
            assert(here_last@.children =~= here@.children.update(i as int, (*final(cur))@));
            assert forall|b: Branch<H, N, V>|
                model::put_from(whole, full, b) == rebuilt(
                    #[trigger] model::put_from((*cur)@, model::indices(path@), b),
                ) by {
                assert(model::put_from(here@, rest, b).children =~= here@.children.update(
                    i as int,
                    model::put_from((*cur)@, model::indices(path@), b),
                ));
            }
        }
    }
    assert(model::put_from((*cur)@, model::indices(path@), (*final(cur))@) == (*final(cur))@);
    cur
}

/// Take the node at `path` out of the given nodes or of what is below them.
pub(crate) fn take_at<H, N, V>(nodes: &mut Vec<Node<H, N, V>>, path: Vec<usize>) -> (r: Node<
    H,
    N,
    V,
>)
    requires
        model::is_path(branches(old(nodes)@), model::indices(path@)),
    ensures
        r@ == model::node_at(branches(old(nodes)@), model::indices(path@)),
        branches(final(nodes)@) == model::cut_at(
            branches(old(nodes)@),
            model::indices(path@),
        ),
{
    let mut path = path;
    let ghost whole = branches(nodes@);
    let ghost full = model::indices(path@);
    let mut cur = nodes;
    let ghost last_value = *final(cur);
    // what becomes of the whole once the current nodes have got their last value
    let ghost mut rebuilt: spec_fn(Seq<Branch<H, N, V>>) -> Seq<Branch<H, N, V>> = |
        bs: Seq<Branch<H, N, V>>,
    | bs;
    while path.len() > 1
        invariant
            model::is_path(branches((*cur)@), model::indices(path@)),
            model::node_at(whole, full) == model::node_at(
                branches((*cur)@),
                model::indices(path@),
            ),
            branches(last_value@) == rebuilt(branches((*final(cur))@)),
            model::cut_at(whole, full) == rebuilt(
                model::cut_at(branches((*cur)@), model::indices(path@)),
            ),
        decreases path@.len(),
    {
        let ghost rest = model::indices(path@);
        let ghost here = (*cur)@;
        let ghost here_last = (*final(cur))@;
        let ghost outer = rebuilt;
        let last: usize = path.len() - 1;
        let i: usize = path[last];
        path.truncate(last);
        let ghost top = here[i as int];
        proof {
            assert(model::indices(path@) =~= rest.drop_last());
            assert(rest.last() == i);
            rebuilt = |bs: Seq<Branch<H, N, V>>|
                outer(branches(here).update(i as int, Branch { children: bs, ..top@ }));
            assert(branches(here)[i as int] == top@);
            assert(branches(top.children@) =~= top@.children);
        }
        cur = &mut cur[i].children;
        proof {
            let top_last = here_last[i as int];
            assert(here_last == here.update(i as int, top_last));
            assert(top_last@.children =~= branches((*final(cur))@));
            assert(top_last@ == (Branch { children: branches((*final(cur))@), ..top@ }));
            assert(branches(here_last) =~= branches(here).update(i as int, top_last@));
        }
    }
    assert(model::indices(path@).last() == path@[0]);
    let ghost here = (*cur)@;
    let i: usize = path[0];
    let r = cur.remove(i);
    assert(branches((*cur)@) =~= branches(here).remove(i as int));
    r
}

/// Maps a node and all that is below it. To the verifier a function that is
/// called does not change.
pub(crate) fn map_node<H, N, V, VT, F>(node: Node<H, N, V>, f: &mut F) -> (r: Node<H, N, VT>) where
    F: FnMut(&H, &N, V) -> VT,

    requires
        model::maps_all(*old(f)),
    ensures
        model::mapped_by(*old(f), node@, r@),
        *final(f) == *old(f),
    decreases node,
{
    let Node { hash, number, data, children: given } = node;
    let mut children: Vec<Node<H, N, VT>> = Vec::new();
    for child in nodes: given
        invariant
            model::maps_all(*f),
            *f == *old(f),
            given@ == node.children@,
            nodes.seq() == given@,
            children@.len() == nodes.index(),
            forall|k: int|
                0 <= k < nodes.index() ==> model::mapped_by(
                    *f,
                    given@[k]@,
                    (#[trigger] children@[k])@,
                ),
    {
        children.push(map_node(child, f));
    }
    let data = f(&hash, &number, data);
    Node { hash, number, data, children }
}

impl<H: PartialEq, N: Ord, V> Node<H, N, V> {
    /// Find a node in the tree that is the deepest ancestor of the given
    /// block hash which also passes the given predicate, backtracking
    /// when the predicate fails.
    /// The given function `is_descendent_of` should return `true` if the second hash (target)
    /// is a descendent of the first hash (base).
    ///
    /// The returned indices are from last to first. The earliest index in the traverse path
    /// goes last, and the final index in the traverse path goes first. An empty list means
    /// that the current node is the result.
    pub fn find_node_index_where<F, P, E>(
        &self,
        hash: &H,
        number: &N,
        is_descendent_of: &F,
        predicate: &P,
    ) -> (r: Result<FindOutcome<Vec<usize>>, Error<E>>) where
        F: Fn(&H, &H) -> Result<bool, E>,
        P: Fn(&V) -> bool,

        requires
            model::answers_all(*is_descendent_of),
            model::tests_all(*predicate),
        ensures
            forall|d: spec_fn(H, H) -> Result<bool, E>, q: spec_fn(V) -> bool| #[trigger]
                model::decides::<H, N, E, F>(*is_descendent_of, d) && #[trigger] model::selects(
                    *predicate,
                    q,
                ) ==> outcome(r) == search::find_from(self@, *hash, *number, d, q),
            r matches Ok(FindOutcome::Found(path)) ==> {
                &&& model::is_path_from(self@, model::indices(path@))
                &&& call_ensures(
                    *predicate,
                    (&model::node_from(self@, model::indices(path@)).data,),
                    true,
                )
            },
            !(r matches Ok(FindOutcome::Abort)),
            r matches Err(Error::Client(e)) ==> model::fails_with(*is_descendent_of, *hash, e),
    {
        if *number < self.number {
            return Ok(FindOutcome::Failure(false));
        }
        let mut stack: Vec<(&Node<H, N, V>, usize)> = Vec::new();
        stack.push((self, 0));
        let mut touched: bool = false;
        proof {
            assert(frames(stack@) =~= seq![(self@, 0int)]);
            assert(frames(stack@).drop_last() =~= Seq::empty());
            assert(trail::linked(self@, frames(stack@).drop_last()));
            assert forall|d: spec_fn(H, H) -> Result<bool, E>, q: spec_fn(V) -> bool|
                #[trigger] model::decides::<H, N, E, F>(*is_descendent_of, d)
                    && #[trigger] model::selects(*predicate, q) implies search::on_course(
                self@,
                frames(stack@),
                false,
                *hash,
                *number,
                d,
                q,
            ) by {}
        }
        while stack.len() > 0
            invariant
                model::answers_all(*is_descendent_of),
                model::tests_all(*predicate),
                trail::linked(self@, frames(stack@)),
                touched ==> forall|k: int| 0 <= k < stack@.len() ==> (#[trigger] stack@[k]).1 > 0,
                forall|k: int| 0 <= k < stack@.len() - 1 ==> (#[trigger] stack@[k]).1 > 0,
                forall|d: spec_fn(H, H) -> Result<bool, E>, q: spec_fn(V) -> bool| #[trigger]
                    model::decides::<H, N, E, F>(*is_descendent_of, d) && #[trigger] model::selects(
                        *predicate,
                        q,
                    ) ==> {
                        &&& !number.is_lt(&self.number)
                        &&& search::on_course(
                            self@,
                            frames(stack@),
                            touched,
                            *hash,
                            *number,
                            d,
                            q,
                        )
                    },
            decreases 2 * trail::unseen(frames(stack@)) + stack@.len(),
        {
            let ghost before = frames(stack@);
            let top: usize = stack.len() - 1;
            let (node, next) = stack[top];
            assert(before.last() == (node@, next as int));
            if !touched && !(*number <= node.number) && next < node.children.len() {
                proof {
                    trail::lemma_enter(before);
                    trail::lemma_enter_linked(self@, before);
                }
                stack[top] = (node, next + 1);
                stack.push((&node.children[next], 0));
                assert(frames(stack@) =~= before.update(
                    before.len() - 1,
                    (node@, next + 1),
                ).push((node@.children[next as int], 0)));
                proof {
                    assert forall|d: spec_fn(H, H) -> Result<bool, E>, q: spec_fn(V) -> bool|
                        #[trigger] model::decides::<H, N, E, F>(*is_descendent_of, d)
                            && #[trigger] model::selects(*predicate, q) implies search::on_course(
                        self@,
                        frames(stack@),
                        touched,
                        *hash,
                        *number,
                        d,
                        q,
                    ) by {
                        search::lemma_search_enters(self@, before, *hash, *number, d, q);
                    }
                }
            } else {
                let _ = stack.pop();
                let ghost was_touched = touched;
                assert(frames(stack@) =~= before.drop_last());
                proof {
                    assert forall|k: int| 0 <= k < stack@.len() implies (#[trigger] stack@[k]).1
                        > 0 by {}
                    if stack@.len() > 0 {
                        assert(frames(stack@).last().1 == stack@.last().1);
                    }
                    trail::lemma_trail(self@, frames(stack@));
                    assert forall|d: spec_fn(H, H) -> Result<bool, E>, q: spec_fn(V) -> bool|
                        #[trigger] model::decides::<H, N, E, F>(*is_descendent_of, d)
                            && #[trigger] model::selects(*predicate, q) implies {
                        &&& !was_touched && d(node.hash, *hash) == Ok::<bool, E>(false)
                            ==> search::on_course(
                            self@,
                            frames(stack@),
                            false,
                            *hash,
                            *number,
                            d,
                            q,
                        )
                        &&& !was_touched ==> (d(node.hash, *hash) matches Err(e)
                            ==> search::search(self@, *hash, *number, d, q) == Err::<
                            FindOutcome<Seq<int>>,
                            _,
                        >(Error::Client(e)))
                        &&& was_touched || d(node.hash, *hash) == Ok::<bool, E>(true) ==> if q(
                            node.data,
                        ) {
                            search::search(self@, *hash, *number, d, q) == Ok::<_, Error<E>>(
                                FindOutcome::Found(trail::trail(frames(stack@))),
                            )
                        } else {
                            search::on_course(
                                self@,
                                frames(stack@),
                                true,
                                *hash,
                                *number,
                                d,
                                q,
                            )
                        }
                    } by {
                        search::lemma_search_leaves(
                            self@,
                            before,
                            was_touched,
                            *hash,
                            *number,
                            d,
                            q,
                        );
                    }
                }
                let is_ancestor = if touched {
                    true
                } else {
                    match is_descendent_of(&node.hash, hash) {
                        Ok(answer) => answer,
                        Err(e) => {
                            return Err(Error::Client(e));
                        },
                    }
                };
                if is_ancestor {
                    // if the predicate passes we return the node
                    if predicate(&node.data) {
                        let path = path_of(&stack);
                        return Ok(FindOutcome::Found(path));
                    }
                    touched = true;
                }
            }
        }
        assert(frames(stack@) =~= Seq::empty());
        Ok(FindOutcome::Failure(touched))
    }

    /// Find a node in the tree that is the deepest ancestor of the given
    /// block hash which also passes the given predicate, backtracking
    /// when the predicate fails.
    /// The given function `is_descendent_of` should return `true` if the second hash (target)
    /// is a descendent of the first hash (base).
    pub fn find_node_where<F, P, E>(
        &self,
        hash: &H,
        number: &N,
        is_descendent_of: &F,
        predicate: &P,
    ) -> (r: Result<FindOutcome<&Node<H, N, V>>, Error<E>>) where
        F: Fn(&H, &H) -> Result<bool, E>,
        P: Fn(&V) -> bool,

        requires
            model::answers_all(*is_descendent_of),
            model::tests_all(*predicate),
        ensures
            forall|d: spec_fn(H, H) -> Result<bool, E>, q: spec_fn(V) -> bool| #[trigger]
                model::decides::<H, N, E, F>(*is_descendent_of, d) && #[trigger] model::selects(
                    *predicate,
                    q,
                ) ==> match search::find_from(self@, *hash, *number, d, q) {
                    Ok(FindOutcome::Found(path)) => r matches Ok(FindOutcome::Found(node))
                        && node@ == model::node_from(self@, path),
                    Ok(FindOutcome::Failure(touched)) => r == Ok::<_, Error<E>>(
                        FindOutcome::<&Node<H, N, V>>::Failure(touched),
                    ),
                    Ok(FindOutcome::Abort) => false,
                    Err(e) => r == Err::<FindOutcome<&Node<H, N, V>>, _>(e),
                },
            r matches Ok(FindOutcome::Found(node)) ==> {
                &&& call_ensures(*predicate, (&node.data,), true)
                &&& exists|path: Seq<int>| #[trigger]
                    model::is_path_from(self@, path) && node@ == model::node_from(self@, path)
            },
            r matches Err(Error::Client(e)) ==> model::fails_with(*is_descendent_of, *hash, e),
    {
        match self.find_node_index_where(hash, number, is_descendent_of, predicate) {
            Ok(FindOutcome::Abort) => Ok(FindOutcome::Abort),
            Ok(FindOutcome::Failure(touched)) => Ok(FindOutcome::Failure(touched)),
            Ok(FindOutcome::Found(path)) => Ok(FindOutcome::Found(follow(self, path))),
            Err(e) => Err(e),
        }
    }

    /// Find a node in the tree that is the deepest ancestor of the given
    /// block hash which also passes the given predicate, backtracking
    /// when the predicate fails.
    /// The given function `is_descendent_of` should return `true` if the second hash (target)
    /// is a descendent of the first hash (base).
    pub fn find_node_where_mut<F, P, E>(
        &mut self,
        hash: &H,
        number: &N,
        is_descendent_of: &F,
        predicate: &P,
    ) -> (r: Result<FindOutcome<&mut Node<H, N, V>>, Error<E>>) where
        F: Fn(&H, &H) -> Result<bool, E>,
        P: Fn(&V) -> bool,

        requires
            model::answers_all(*is_descendent_of),
            model::tests_all(*predicate),
        ensures
            forall|d: spec_fn(H, H) -> Result<bool, E>, q: spec_fn(V) -> bool| #[trigger]
                model::decides::<H, N, E, F>(*is_descendent_of, d) && #[trigger] model::selects(
                    *predicate,
                    q,
                ) ==> match search::find_from(old(self)@, *hash, *number, d, q) {
                    Ok(FindOutcome::Found(path)) => r matches Ok(FindOutcome::Found(node)) && {
                        &&& (*node)@ == model::node_from(old(self)@, path)
                        &&& (*final(self))@ == model::put_from(
                            old(self)@,
                            path,
                            (*final(node))@,
                        )
                    },
                    Ok(FindOutcome::Failure(touched)) => {
                        &&& r matches Ok(FindOutcome::Failure(t)) && t == touched
                        &&& *final(self) == *old(self)
                    },
                    Ok(FindOutcome::Abort) => false,
                    Err(e) => {
                        &&& r matches Err(f) && f == e
                        &&& *final(self) == *old(self)
                    },
                },
            match r {
                Ok(FindOutcome::Found(node)) => {
                    &&& call_ensures(*predicate, (&(*node).data,), true)
                    &&& exists|path: Seq<int>| #[trigger]
                        model::is_path_from(old(self)@, path) && (*node)@ == model::node_from(
                            old(self)@,
                            path,
                        ) && (*final(self))@ == model::put_from(
                            old(self)@,
                            path,
                            (*final(node))@,
                        )
                },
                _ => *final(self) == *old(self),
            },
            r matches Err(Error::Client(e)) ==> model::fails_with(*is_descendent_of, *hash, e),
    {
        match self.find_node_index_where(hash, number, is_descendent_of, predicate) {
            Ok(FindOutcome::Abort) => Ok(FindOutcome::Abort),
            Ok(FindOutcome::Failure(touched)) => Ok(FindOutcome::Failure(touched)),
            Ok(FindOutcome::Found(path)) => Ok(FindOutcome::Found(follow_mut(self, path))),
            Err(e) => Err(e),
        }
    }

    /// The path to the node that becomes the parent of a node with the given
    /// hash and number, if there is one at or below this node.
    fn find_parent_index<F, E>(&self, hash: &H, number: &N, is_descendent_of: &F) -> (r: Result<
        Option<Vec<usize>>,
        Error<E>,
    >) where F: Fn(&H, &H) -> Result<bool, E>
        requires
            model::answers_all(*is_descendent_of),
        ensures
            forall|d: spec_fn(H, H) -> Result<bool, E>| #[trigger]
                model::decides::<H, N, E, F>(*is_descendent_of, d) ==> match r {
                    Ok(Some(path)) => placement::place(self@, *hash, *number, d)
                        == Placement::<E>::Under(model::indices(path@)),
                    Ok(None) => placement::place(self@, *hash, *number, d)
                        == Placement::<E>::Nowhere,
                    Err(e) => placement::place(self@, *hash, *number, d) == Placement::Fails(e),
                },
            r matches Ok(Some(path)) ==> model::is_path_from(self@, model::indices(path@)),
            r matches Err(Error::Client(e)) ==> model::fails_with(*is_descendent_of, *hash, e),
    {
        if self.hash == *hash {
            return Err(Error::Duplicate);
        }
        let mut stack: Vec<(&Node<H, N, V>, usize)> = Vec::new();
        stack.push((self, 0));
        proof {
            assert(frames(stack@) =~= seq![(self@, 0int)]);
            assert(frames(stack@).drop_last() =~= Seq::empty());
            assert(trail::linked(self@, frames(stack@).drop_last()));
            assert forall|d: spec_fn(H, H) -> Result<bool, E>| #[trigger]
                model::decides::<H, N, E, F>(*is_descendent_of, d) implies placement::on_course(
                self@,
                frames(stack@),
                *hash,
                *number,
                d,
            ) by {}
        }
        while stack.len() > 0
            invariant
                model::answers_all(*is_descendent_of),
                trail::linked(self@, frames(stack@)),
                forall|k: int| 0 <= k < stack@.len() - 1 ==> (#[trigger] stack@[k]).1 > 0,
                forall|d: spec_fn(H, H) -> Result<bool, E>| #[trigger]
                    model::decides::<H, N, E, F>(*is_descendent_of, d) ==> placement::on_course(
                        self@,
                        frames(stack@),
                        *hash,
                        *number,
                        d,
                    ),
            decreases 2 * trail::unseen(frames(stack@)) + stack@.len(),
        {
            let ghost before = frames(stack@);
            let top: usize = stack.len() - 1;
            let (node, next) = stack[top];
            assert(before.last() == (node@, next as int));
            if !(*number <= node.number) && next < node.children.len() {
                let child = &node.children[next];
                proof {
                    trail::lemma_enter(before);
                    trail::lemma_enter_linked(self@, before);
                    assert forall|d: spec_fn(H, H) -> Result<bool, E>| #[trigger]
                        model::decides::<H, N, E, F>(*is_descendent_of, d) implies if child.hash.is_eq(
                        hash,
                    ) {
                        placement::place(self@, *hash, *number, d) == Placement::<E>::Fails(
                            Error::Duplicate,
                        )
                    } else {
                        placement::on_course(
                            self@,
                            before.update(before.len() - 1, (node@, next + 1)).push((child@, 0)),
                            *hash,
                            *number,
                            d,
                        )
                    } by {
                        placement::lemma_place_enters(self@, before, *hash, *number, d);
                    }
                }
                if child.hash == *hash {
                    return Err(Error::Duplicate);
                }
                stack[top] = (node, next + 1);
                stack.push((child, 0));
                assert(frames(stack@) =~= before.update(
                    before.len() - 1,
                    (node@, next + 1),
                ).push((child@, 0)));
            } else {
                let _ = stack.pop();
                assert(frames(stack@) =~= before.drop_last());
                proof {
                    if stack@.len() > 0 {
                        assert(frames(stack@).last().1 == stack@.last().1);
                    }
                    trail::lemma_trail(self@, frames(stack@));
                    assert forall|d: spec_fn(H, H) -> Result<bool, E>| #[trigger]
                        model::decides::<H, N, E, F>(*is_descendent_of, d) implies match d(
                        node.hash,
                        *hash,
                    ) {
                        Ok(true) => placement::place(self@, *hash, *number, d)
                            == Placement::<E>::Under(trail::trail(frames(stack@))),
                        Ok(false) => placement::on_course(
                            self@,
                            frames(stack@),
                            *hash,
                            *number,
                            d,
                        ),
                        Err(e) => placement::place(self@, *hash, *number, d) == Placement::Fails(
                            Error::Client(e),
                        ),
                    } by {
                        placement::lemma_place_leaves(self@, before, *hash, *number, d);
                    }
                }
                match is_descendent_of(&node.hash, hash) {
                    Ok(true) => {
                        let path = path_of(&stack);
                        return Ok(Some(path));
                    },
                    Ok(false) => {},
                    Err(e) => {
                        return Err(Error::Client(e));
                    },
                }
            }
        }
        assert(frames(stack@) =~= Seq::empty());
        Ok(None)
    }

    /// Import a new node at or below this one. The node is handed back if it
    /// is not a descendent of any of the nodes here.
    pub fn import<F, E>(&mut self, hash: H, number: N, data: V, is_descendent_of: &F) -> (r: Result<
        Option<(H, N, V)>,
        Error<E>,
    >) where F: Fn(&H, &H) -> Result<bool, E>
        requires
            model::answers_all(*is_descendent_of),
        ensures
            forall|d: spec_fn(H, H) -> Result<bool, E>| #[trigger]
                model::decides::<H, N, E, F>(*is_descendent_of, d) ==> match placement::place(
                    old(self)@,
                    hash,
                    number,
                    d,
                ) {
                    Placement::Under(path) => {
                        &&& r == Ok::<Option<(H, N, V)>, Error<E>>(None)
                        &&& final(self)@ == placement::grafted_from(
                            old(self)@,
                            path,
                            model::leaf(hash, number, data),
                        )
                    },
                    Placement::Nowhere => r == Ok::<_, Error<E>>(Some((hash, number, data))),
                    Placement::Fails(e) => r == Err::<Option<(H, N, V)>, _>(e),
                },
            match r {
                Ok(None) => exists|path: Seq<int>| #[trigger]
                    model::is_path_from(old(self)@, path) && final(self)@
                        == placement::grafted_from(
                        old(self)@,
                        path,
                        model::leaf(hash, number, data),
                    ),
                Ok(Some(node)) => node == (hash, number, data) && *final(self) == *old(self),
                Err(_) => *final(self) == *old(self),
            },
            r matches Err(Error::Client(e)) ==> model::fails_with(*is_descendent_of, hash, e),
    {
        match self.find_parent_index(&hash, &number, is_descendent_of) {
            Ok(Some(path)) => {
                let ghost whole = self@;
                let ghost full = model::indices(path@);
                let parent = follow_mut(self, path);
                let ghost before = *parent;
                let node = leaf(hash, number, data);
                parent.children.push(node);
                assert((*parent)@.children =~= before@.children.push(node@));
                assert((*parent)@ == model::with_child(model::node_from(whole, full), node@));
                Ok(None)
            },
            Ok(None) => Ok(Some((hash, number, data))),
            Err(e) => Err(e),
        }
    }

    /// Rebalance the tree, i.e. sort child nodes by max branch depth (decreasing).
    pub fn rebalance(&mut self)
        ensures
            final(self)@ == balance::rebalanced(old(self)@),
        decreases *old(self),
    {
        let ghost before = *self;
        rebalance_all(&mut self.children);
        assert(self@.children =~= branches(self.children@));
        assert(before@.children =~= branches(before.children@));
    }

    /// Finds the max depth among all branches descendent from this node.
    pub fn max_depth(&self) -> (depth: usize)
        ensures
            depth == balance::rank(self@),
        decreases self,
    {
        let mut max: usize = 0;
        let mut i: usize = 0;
        assert(self@.children.take(0) =~= Seq::empty());
        while i < self.children.len()
            invariant
                i <= self.children@.len(),
                max == balance::capped(model::height_all(self@.children.take(i as int))),
            decreases self.children@.len() - i,
        {
            let depth: usize = self.children[i].max_depth();
            assert(self@.children.take(i + 1).drop_last() =~= self@.children.take(i as int));
            if depth > max {
                max = depth;
            }
            i = i + 1;
        }
        assert(self@.children.take(i as int) =~= self@.children);
        max.saturating_add(1)
    }

    /// Map node data into values of new types. Children are mapped before
    /// their parent. What is stated is for a function that keeps no state.
    pub fn map<VT, F>(self, f: &mut F) -> (r: Node<H, N, VT>) where F: FnMut(&H, &N, V) -> VT
        requires
            model::maps_all(*old(f)),
        ensures
            model::mapped_by(*old(f), self@, r@),
    {
        map_node(self, f)
    }
}

} // verus!
