//! The mathematical picture of a fork tree.
//!
//! A node, together with everything below it, is a [`Branch`]; the whole tree
//! is a [`Forest`], a sequence of branches and the best finalized number. A
//! position in a sequence of branches is a path of indices which is read from
//! its end: the last index picks one of the branches, the index before it one
//! of that branch's children, and so on.

use vstd::prelude::*;
use vstd::std_specs::cmp::{PartialEqSpec, PartialOrdSpec};

verus! {

/// A node with all of its descendants.
#[verifier::ext_equal]
pub struct Branch<H, N, V> {
    /// What identifies the node.
    pub hash: H,
    /// What orders the node against others.
    pub number: N,
    /// The value that the node carries.
    pub data: V,
    /// The branches that start right below the node, in order.
    pub children: Seq<Branch<H, N, V>>,
}

/// All branches of a tree and how far it has been finalized.
#[verifier::ext_equal]
pub struct Forest<H, N, V> {
    /// The top-level branches, in order.
    pub roots: Seq<Branch<H, N, V>>,
    /// The number of the last finalized node, if there was one.
    pub best_finalized_number: Option<N>,
}

/// Equality of hashes and the order of numbers are functions of the two
/// values that are compared.
pub open spec fn lawful_keys<H: PartialEq, N: Ord>() -> bool {
    &&& H::obeys_eq_spec()
    &&& N::obeys_eq_spec()
    &&& N::obeys_partial_cmp_spec()
}

/// The keys are lawful, and whatever `f` answers about two hashes is what `d`
/// says about them.
pub open spec fn decides<H: PartialEq, N: Ord, E, F: Fn(&H, &H) -> Result<bool, E>>(
    f: F,
    d: spec_fn(H, H) -> Result<bool, E>,
) -> bool {
    &&& lawful_keys::<H, N>()
    &&& forall|a: H, b: H, r: Result<bool, E>| #[trigger]
        call_ensures(f, (&a, &b), r) ==> r == d(a, b)
}

/// `f` may be asked about any two hashes.
pub open spec fn answers_all<H, E, F: Fn(&H, &H) -> Result<bool, E>>(f: F) -> bool {
    forall|a: &H, b: &H| #[trigger] call_requires(f, (a, b))
}

/// Whatever `p` answers about a value is what `q` says about it.
pub open spec fn selects<V, P: Fn(&V) -> bool>(p: P, q: spec_fn(V) -> bool) -> bool {
    forall|v: V, r: bool| #[trigger] call_ensures(p, (&v,), r) ==> r == q(v)
}

/// `p` may be asked about any value.
pub open spec fn tests_all<V, P: Fn(&V) -> bool>(p: P) -> bool {
    forall|v: &V| #[trigger] call_requires(p, (v,))
}

/// `f` may answer with the error `e` when it is asked whether the given hash
/// descends from some other one.
pub open spec fn fails_with<H, E, F: Fn(&H, &H) -> Result<bool, E>>(f: F, hash: H, e: E) -> bool {
    exists|base: H, r: Result<bool, E>| #[trigger]
        call_ensures(f, (&base, &hash), r) && r == Err::<bool, E>(e)
}

/// If `b` may pass the predicate, `f` may be asked whether the given hash
/// descends from `b` or from a child of `b`. Nothing is said of a node that
/// does not pass.
pub open spec fn answers_if_passed<H, N, V, E, F, P>(
    f: F,
    p: P,
    b: Branch<H, N, V>,
    hash: H,
) -> bool where F: Fn(&H, &H) -> Result<bool, E>, P: Fn(&V) -> bool {
    call_ensures(p, (&b.data,), true) ==> {
        &&& call_requires(f, (&b.hash, &hash))
        &&& forall|i: int|
            0 <= i < b.children.len() ==> call_requires(
                f,
                (&(#[trigger] b.children[i]).hash, &hash),
            )
    }
}

/// `f` may be asked, either way round, about each of the branches and the given
/// hash.
pub open spec fn answers_both_ways<H, N, V, E, F: Fn(&H, &H) -> Result<bool, E>>(
    f: F,
    bs: Seq<Branch<H, N, V>>,
    hash: H,
) -> bool {
    forall|i: int|
        0 <= i < bs.len() ==> call_requires(f, (&hash, &(#[trigger] bs[i]).hash)) && call_requires(
            f,
            (&bs[i].hash, &hash),
        )
}

/// `b` may fail the predicate, or `f` may deny that the given hash descends
/// from it.
pub open spec fn may_be_passed_over<H, N, V, E, F, P>(
    f: F,
    p: P,
    b: Branch<H, N, V>,
    hash: H,
) -> bool where F: Fn(&H, &H) -> Result<bool, E>, P: Fn(&V) -> bool {
    call_ensures(p, (&b.data,), false) || call_ensures(
        f,
        (&b.hash, &hash),
        Ok::<bool, E>(false),
    )
}

/// `f` may be given any node to map.
pub open spec fn maps_all<H, N, V, VT, F: FnMut(&H, &N, V) -> VT>(f: F) -> bool {
    forall|h: &H, n: &N, v: V| #[trigger] call_requires(f, (h, n, v))
}

/// `c` has the shape, the hashes and the numbers of `b`, and each value in it
/// is what `f` may return for the node in the same place of `b`.
pub open spec fn mapped_by<H, N, V, VT, F: FnMut(&H, &N, V) -> VT>(
    f: F,
    b: Branch<H, N, V>,
    c: Branch<H, N, VT>,
) -> bool
    decreases b,
{
    &&& c.hash == b.hash
    &&& c.number == b.number
    &&& call_ensures(f, (&b.hash, &b.number, b.data), c.data)
    &&& c.children.len() == b.children.len()
    &&& forall|i: int|
        0 <= i < b.children.len() ==> mapped_by(f, #[trigger] b.children[i], c.children[i])
}

/// The three things that a node is made of.
pub open spec fn entry<H, N, V>(b: Branch<H, N, V>) -> (H, N, V) {
    (b.hash, b.number, b.data)
}

/// A node without children.
pub open spec fn leaf<H, N, V>(hash: H, number: N, data: V) -> Branch<H, N, V> {
    Branch { hash, number, data, children: Seq::empty() }
}

/// The nodes of `b` in pre-order: `b` itself, then all nodes below its first
/// child, and so on. Each node comes with its own descendants.
pub open spec fn walk<H, N, V>(b: Branch<H, N, V>) -> Seq<Branch<H, N, V>>
    decreases b,
{
    seq![b] + walk_all(b.children)
}

/// The nodes of all the given branches in pre-order.
pub open spec fn walk_all<H, N, V>(bs: Seq<Branch<H, N, V>>) -> Seq<Branch<H, N, V>>
    decreases bs,
{
    if bs.len() == 0 {
        Seq::empty()
    } else {
        walk(bs[0]) + walk_all(bs.drop_first())
    }
}

/// The nodes of all the given branches, each branch in pre-order, but the last
/// branch first.
pub open spec fn walk_back<H, N, V>(bs: Seq<Branch<H, N, V>>) -> Seq<Branch<H, N, V>>
    decreases bs.len(),
{
    if bs.len() == 0 {
        Seq::empty()
    } else {
        walk(bs.last()) + walk_back(bs.drop_last())
    }
}

/// Pre-order goes through one sequence of branches after the other.
pub proof fn lemma_walk_all_add<H, N, V>(a: Seq<Branch<H, N, V>>, b: Seq<Branch<H, N, V>>)
    ensures
        walk_all(a + b) == walk_all(a) + walk_all(b),
    decreases a.len(),
{
    if a.len() == 0 {
        assert(a + b =~= b);
        assert(walk_all(a) + walk_all(b) =~= walk_all(b));
    } else {
        lemma_walk_all_add(a.drop_first(), b);
        assert((a + b).drop_first() =~= a.drop_first() + b);
        assert((a + b)[0] == a[0]);
        assert(walk(a[0]) + (walk_all(a.drop_first()) + walk_all(b)) =~= (walk(a[0]) + walk_all(
            a.drop_first(),
        )) + walk_all(b));
    }
}

/// A branch by itself has one node more than its children have.
pub proof fn lemma_walk_one<H, N, V>(b: Branch<H, N, V>)
    ensures
        walk_all(seq![b]) == walk(b),
        walk(b).len() == 1 + walk_all(b.children).len(),
{
    assert(seq![b].drop_first() =~= Seq::empty());
    assert(walk_all(Seq::<Branch<H, N, V>>::empty()) =~= Seq::empty());
    assert(walk(b) + Seq::<Branch<H, N, V>>::empty() =~= walk(b));
}

/// Branches that were put in reverse order come out in order.
pub proof fn lemma_walk_back_reversed<H, N, V>(
    a: Seq<Branch<H, N, V>>,
    b: Seq<Branch<H, N, V>>,
)
    ensures
        walk_back(a + b.reverse()) == walk_all(b) + walk_back(a),
    decreases b.len(),
{
    if b.len() == 0 {
        assert(a + b.reverse() =~= a);
        assert(walk_all(b) + walk_back(a) =~= walk_back(a));
    } else {
        let s = a + b.reverse();
        lemma_walk_back_reversed(a, b.drop_first());
        assert(s.last() == b[0]);
        assert(s.drop_last() =~= a + b.drop_first().reverse());
        assert(walk(b[0]) + (walk_all(b.drop_first()) + walk_back(a)) =~= (walk(b[0]) + walk_all(
            b.drop_first(),
        )) + walk_back(a));
    }
}

/// What the given nodes are made of.
pub open spec fn entries<H, N, V>(nodes: Seq<Branch<H, N, V>>) -> Seq<(H, N, V)> {
    nodes.map_values(|b: Branch<H, N, V>| entry(b))
}

/// `path` leads to a node below the given branches.
pub open spec fn is_path<H, N, V>(bs: Seq<Branch<H, N, V>>, path: Seq<int>) -> bool
    decreases path.len(),
{
    &&& path.len() > 0
    &&& 0 <= path.last() < bs.len()
    &&& path.len() > 1 ==> is_path(bs[path.last()].children, path.drop_last())
}

/// The node that `path` leads to.
pub open spec fn node_at<H, N, V>(bs: Seq<Branch<H, N, V>>, path: Seq<int>) -> Branch<H, N, V>
    recommends
        is_path(bs, path),
    decreases path.len(),
{
    if path.len() <= 1 {
        bs[path.last()]
    } else {
        node_at(bs[path.last()].children, path.drop_last())
    }
}

/// The given branches with the node at `path` replaced by `b`.
pub open spec fn put_at<H, N, V>(
    bs: Seq<Branch<H, N, V>>,
    path: Seq<int>,
    b: Branch<H, N, V>,
) -> Seq<Branch<H, N, V>>
    recommends
        is_path(bs, path),
    decreases path.len(),
{
    if path.len() <= 1 {
        bs.update(path.last(), b)
    } else {
        let top = bs[path.last()];
        bs.update(
            path.last(),
            Branch { children: put_at(top.children, path.drop_last(), b), ..top },
        )
    }
}

/// The given branches without the node at `path`.
pub open spec fn cut_at<H, N, V>(bs: Seq<Branch<H, N, V>>, path: Seq<int>) -> Seq<
    Branch<H, N, V>,
>
    recommends
        is_path(bs, path),
    decreases path.len(),
{
    if path.len() <= 1 {
        bs.remove(path.last())
    } else {
        let top = bs[path.last()];
        bs.update(path.last(), Branch { children: cut_at(top.children, path.drop_last()), ..top })
    }
}

/// `b` is a node at or below the given branches.
pub open spec fn is_node<H, N, V>(bs: Seq<Branch<H, N, V>>, b: Branch<H, N, V>) -> bool {
    exists|path: Seq<int>| #[trigger] is_path(bs, path) && node_at(bs, path) == b
}

/// `picked` are the branches at the given places, which are in order.
pub open spec fn picks<H, N, V>(
    bs: Seq<Branch<H, N, V>>,
    at: Seq<int>,
    picked: Seq<Branch<H, N, V>>,
) -> bool {
    &&& at.len() == picked.len()
    &&& forall|i: int, j: int| 0 <= i < j < at.len() ==> #[trigger] at[i] < #[trigger] at[j]
    &&& forall|i: int|
        0 <= i < at.len() ==> 0 <= #[trigger] at[i] < bs.len() && picked[i] == bs[at[i]]
}

/// `picked` are some of the branches, in the same order.
pub open spec fn is_picked_from<H, N, V>(
    picked: Seq<Branch<H, N, V>>,
    bs: Seq<Branch<H, N, V>>,
) -> bool {
    exists|at: Seq<int>| picks(bs, at, picked)
}

/// `path` leads to `b` itself (when it is empty) or to a node below `b`.
pub open spec fn is_path_from<H, N, V>(b: Branch<H, N, V>, path: Seq<int>) -> bool {
    path.len() == 0 || is_path(b.children, path)
}

/// The node that `path` leads to from `b`.
pub open spec fn node_from<H, N, V>(b: Branch<H, N, V>, path: Seq<int>) -> Branch<H, N, V> {
    if path.len() == 0 {
        b
    } else {
        node_at(b.children, path)
    }
}

/// `b` with the node that `path` leads to replaced by `c`.
pub open spec fn put_from<H, N, V>(
    b: Branch<H, N, V>,
    path: Seq<int>,
    c: Branch<H, N, V>,
) -> Branch<H, N, V> {
    if path.len() == 0 {
        c
    } else {
        Branch { children: put_at(b.children, path, c), ..b }
    }
}

/// A path from the `i`-th branch, prolonged to a path from all branches.
pub proof fn lemma_path_below<H, N, V>(bs: Seq<Branch<H, N, V>>, i: int, path: Seq<int>)
    requires
        0 <= i < bs.len(),
    ensures
        is_path_from(bs[i], path) ==> is_path(bs, path.push(i)),
        node_at(bs, path.push(i)) == node_from(bs[i], path),
{
    assert(path.push(i).drop_last() =~= path);
}

/// `b` with one more child, which comes last.
pub open spec fn with_child<H, N, V>(b: Branch<H, N, V>, c: Branch<H, N, V>) -> Branch<H, N, V> {
    Branch { children: b.children.push(c), ..b }
}

/// A path of machine integers as one of mathematical integers.
pub open spec fn indices(path: Seq<usize>) -> Seq<int> {
    path.map_values(|i: usize| i as int)
}

/// The length of the longest chain of nodes from `b` downwards.
pub open spec fn height<H, N, V>(b: Branch<H, N, V>) -> nat
    decreases b,
{
    1 + height_all(b.children)
}

/// The height of the highest of the given branches.
pub open spec fn height_all<H, N, V>(bs: Seq<Branch<H, N, V>>) -> nat
    decreases bs,
{
    if bs.len() == 0 {
        0
    } else {
        let rest = height_all(bs.drop_last());
        let last = height(bs.last());
        if last > rest {
            last
        } else {
            rest
        }
    }
}

} // verus!
