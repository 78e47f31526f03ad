//! What finalizing nodes and pruning do to the tree.

use vstd::prelude::*;
use vstd::std_specs::cmp::{PartialEqIs, PartialOrdIs};

use crate::balance;
use crate::error::{Error, FinalizationResult};
use crate::model;
use crate::model::{Branch, Forest};
use crate::search;

verus! {

/// The number is not above that of the last finalized node.
pub open spec fn reverts<H, N: Ord, V>(t: Forest<H, N, V>, number: N) -> bool {
    t.best_finalized_number matches Some(best) && number.is_le(&best)
}

/// The first of the branches from the `i`-th on that has the given hash.
pub open spec fn first_with_hash<H: PartialEq, N, V>(
    bs: Seq<Branch<H, N, V>>,
    i: int,
    hash: H,
) -> Option<int>
    decreases bs.len() - i,
{
    if i < 0 || i >= bs.len() {
        None
    } else if bs[i].hash.is_eq(&hash) {
        Some(i)
    } else {
        first_with_hash(bs, i + 1, hash)
    }
}

/// The tree after its `i`-th root has been finalized: the children of that
/// root become the roots, and all other roots are gone.
pub open spec fn opened<H, N, V>(t: Forest<H, N, V>, i: int) -> Forest<H, N, V> {
    Forest {
        roots: t.roots[i].children,
        best_finalized_number: Some(t.roots[i].number),
    }
}

/// `b` is an ancestor of the node with the given hash and number.
pub open spec fn is_ancestor<H, N: Ord, V, E>(
    b: Branch<H, N, V>,
    hash: H,
    number: N,
    d: spec_fn(H, H) -> Result<bool, E>,
) -> bool {
    b.number.is_lt(&number) && d(b.hash, hash) == Ok::<bool, E>(true)
}

/// `b` is a descendant of the node with the given hash and number.
pub open spec fn is_descendant<H, N: Ord, V, E>(
    b: Branch<H, N, V>,
    hash: H,
    number: N,
    d: spec_fn(H, H) -> Result<bool, E>,
) -> bool {
    b.number.is_gt(&number) && d(hash, b.hash) == Ok::<bool, E>(true)
}

/// Why a node cannot be finalized yet: the first of the branches from the
/// `i`-th on which is lower and turns out to be an ancestor of it, or about
/// which the client fails to tell.
pub open spec fn unfinalized_ancestor<H, N: Ord, V, E>(
    bs: Seq<Branch<H, N, V>>,
    i: int,
    hash: H,
    number: N,
    d: spec_fn(H, H) -> Result<bool, E>,
) -> Option<Error<E>>
    decreases bs.len() - i,
{
    if i < 0 || i >= bs.len() {
        None
    } else if number.is_gt(&bs[i].number) && d(bs[i].hash, hash) is Err {
        Some(Error::Client(d(bs[i].hash, hash)->Err_0))
    } else if number.is_gt(&bs[i].number) && d(bs[i].hash, hash) == Ok::<bool, E>(true) {
        Some(Error::UnfinalizedAncestor)
    } else {
        unfinalized_ancestor(bs, i + 1, hash, number, d)
    }
}

/// The tree with only those roots that are to be kept, finalized up to
/// `number`.
pub open spec fn kept<H, N, V>(
    t: Forest<H, N, V>,
    number: N,
    keep: spec_fn(Branch<H, N, V>) -> bool,
) -> Forest<H, N, V> {
    Forest { roots: t.roots.filter(keep), best_finalized_number: Some(number) }
}

/// What is reported about roots of which some may have been dropped.
pub open spec fn dropped<H, N, V>(
    before: Seq<Branch<H, N, V>>,
    after: Seq<Branch<H, N, V>>,
) -> FinalizationResult<V> {
    if before.len() == after.len() {
        FinalizationResult::Unchanged
    } else {
        FinalizationResult::Changed(None)
    }
}

/// What finalizing a node does: an existing root is finalized; otherwise only
/// the roots that descend from the node are kept, unless the node itself
/// descends from a root.
pub open spec fn finalized<H: PartialEq, N: Ord, V, E>(
    t: Forest<H, N, V>,
    hash: H,
    number: N,
    d: spec_fn(H, H) -> Result<bool, E>,
) -> (Forest<H, N, V>, Result<FinalizationResult<V>, Error<E>>) {
    if reverts(t, number) {
        (t, Err(Error::Revert))
    } else {
        match first_with_hash(t.roots, 0, hash) {
            Some(i) => (opened(t, i), Ok(FinalizationResult::Changed(Some(t.roots[i].data)))),
            None => match unfinalized_ancestor(t.roots, 0, hash, number, d) {
                Some(e) => (t, Err(e)),
                None => {
                    let after = kept(
                        t,
                        number,
                        |b: Branch<H, N, V>| is_descendant(b, hash, number, d),
                    );
                    (after, Ok(dropped(t.roots, after.roots)))
                },
            },
        }
    }
}

/// The given branches without the `i`-th, whose place the last one takes.
pub open spec fn swap_removed<H, N, V>(bs: Seq<Branch<H, N, V>>, i: int) -> Seq<Branch<H, N, V>> {
    bs.update(i, bs.last()).drop_last()
}

/// The branches that are left when all ancestors of a node are finalized,
/// from the `i`-th on: a branch that descends from the node stays, an
/// ancestor of it is replaced by its children, which come last, and any other
/// branch goes. It ends at a branch with the hash of the node, whose index is
/// returned too. The flag tells whether any branch went.
pub open spec fn open_ancestors<H: PartialEq, N: Ord, V, E>(
    bs: Seq<Branch<H, N, V>>,
    i: int,
    changed: bool,
    hash: H,
    number: N,
    d: spec_fn(H, H) -> Result<bool, E>,
) -> (Seq<Branch<H, N, V>>, Option<int>, bool)
    decreases model::walk_all(bs.skip(i)).len(),
{
    if i < 0 || i >= bs.len() {
        (bs, None, changed)
    } else if bs[i].hash.is_eq(&hash) {
        (bs, Some(i), changed)
    } else {
        proof {
            lemma_open_shrinks(bs, i);
        }
        if is_descendant(bs[i], hash, number, d) {
            open_ancestors(bs, i + 1, changed, hash, number, d)
        } else if is_ancestor(bs[i], hash, number, d) {
            open_ancestors(swap_removed(bs, i) + bs[i].children, i, true, hash, number, d)
        } else {
            open_ancestors(swap_removed(bs, i), i, true, hash, number, d)
        }
    }
}

/// There are fewer nodes left to look at after each step of opening
/// ancestors, and fewer nodes in all after a branch went.
pub proof fn lemma_open_shrinks<H, N, V>(bs: Seq<Branch<H, N, V>>, i: int)
    requires
        0 <= i < bs.len(),
    ensures
        model::walk_all(bs.skip(i + 1)).len() < model::walk_all(bs.skip(i)).len(),
        model::walk_all((swap_removed(bs, i) + bs[i].children).skip(i)).len() < model::walk_all(
            bs.skip(i),
        ).len(),
        model::walk_all(swap_removed(bs, i).skip(i)).len() < model::walk_all(bs.skip(i)).len(),
        model::walk_all(swap_removed(bs, i) + bs[i].children).len() < model::walk_all(bs).len(),
        model::walk_all(swap_removed(bs, i)).len() < model::walk_all(bs).len(),
{
    let b = bs[i];
    assert(bs.skip(i) =~= seq![b] + bs.skip(i + 1));
    model::lemma_walk_all_add(seq![b], bs.skip(i + 1));
    model::lemma_walk_one(b);
    let rest = swap_removed(bs, i).skip(i);
    assert((swap_removed(bs, i) + b.children).skip(i) =~= rest + b.children);
    model::lemma_walk_all_add(rest, b.children);
    if i < bs.len() - 1 {
        let last = seq![bs.last()];
        let middle = bs.subrange(i + 1, bs.len() - 1);
        assert(rest =~= last + middle);
        assert(bs.skip(i + 1) =~= middle + last);
        model::lemma_walk_all_add(last, middle);
        model::lemma_walk_all_add(middle, last);
    } else {
        assert(rest =~= Seq::empty());
    }
    let front = bs.take(i);
    assert(bs =~= front + bs.skip(i));
    assert(swap_removed(bs, i) =~= front + rest);
    assert(swap_removed(bs, i) + b.children =~= front + (rest + b.children));
    model::lemma_walk_all_add(front, bs.skip(i));
    model::lemma_walk_all_add(front, rest);
    model::lemma_walk_all_add(front, rest + b.children);
}

/// What finalizing a node with all its ancestors does.
pub open spec fn finalized_with_ancestors<H: PartialEq, N: Ord, V, E>(
    t: Forest<H, N, V>,
    hash: H,
    number: N,
    d: spec_fn(H, H) -> Result<bool, E>,
) -> (Forest<H, N, V>, Result<FinalizationResult<V>, Error<E>>) {
    if reverts(t, number) {
        (t, Err(Error::Revert))
    } else {
        let (roots, at, changed) = open_ancestors(t.roots, 0, false, hash, number, d);
        match (first_with_hash(t.roots, 0, hash), at) {
            (Some(i), _) => (opened(t, i), Ok(FinalizationResult::Changed(Some(t.roots[i].data)))),
            (None, Some(i)) => (
                opened(Forest { roots, ..t }, i),
                Ok(FinalizationResult::Changed(Some(roots[i].data))),
            ),
            (None, None) => (
                Forest { roots, best_finalized_number: Some(number) },
                Ok(
                    if changed {
                        FinalizationResult::Changed(None)
                    } else {
                        FinalizationResult::Unchanged
                    },
                ),
            ),
        }
    }
}

/// Why a node cannot be finalized through the parent of the given branches:
/// the first of them, from the `i`-th on, which is not higher and turns out to
/// be an ancestor of it, or about which the client fails to tell.
pub open spec fn overtaken<H, N: Ord, V, E>(
    bs: Seq<Branch<H, N, V>>,
    i: int,
    hash: H,
    number: N,
    d: spec_fn(H, H) -> Result<bool, E>,
) -> Option<Error<E>>
    decreases bs.len() - i,
{
    if i < 0 || i >= bs.len() {
        None
    } else if bs[i].number.is_le(&number) && d(bs[i].hash, hash) is Err {
        Some(Error::Client(d(bs[i].hash, hash)->Err_0))
    } else if bs[i].number.is_le(&number) && d(bs[i].hash, hash) == Ok::<bool, E>(true) {
        Some(Error::UnfinalizedAncestor)
    } else {
        overtaken(bs, i + 1, hash, number, d)
    }
}

/// Whether `b` is finalized by the node with the given hash and number: it
/// passes the predicate, it is that node or an ancestor of it, and none of
/// its children is overtaken.
pub open spec fn finalizes<H: PartialEq, N: Ord, V, E>(
    b: Branch<H, N, V>,
    hash: H,
    number: N,
    d: spec_fn(H, H) -> Result<bool, E>,
    q: spec_fn(V) -> bool,
) -> Result<bool, Error<E>> {
    if !q(b.data) {
        Ok(false)
    } else if !b.hash.is_eq(&hash) && d(b.hash, hash) is Err {
        Err(Error::Client(d(b.hash, hash)->Err_0))
    } else if !b.hash.is_eq(&hash) && d(b.hash, hash) == Ok::<bool, E>(false) {
        Ok(false)
    } else {
        match overtaken(b.children, 0, hash, number, d) {
            Some(e) => Err(e),
            None => Ok(true),
        }
    }
}

/// The first of the branches from the `i`-th on that is finalized.
pub open spec fn first_finalized<H: PartialEq, N: Ord, V, E>(
    bs: Seq<Branch<H, N, V>>,
    i: int,
    hash: H,
    number: N,
    d: spec_fn(H, H) -> Result<bool, E>,
    q: spec_fn(V) -> bool,
) -> Result<Option<int>, Error<E>>
    decreases bs.len() - i,
{
    if i < 0 || i >= bs.len() {
        Ok(None)
    } else {
        match finalizes(bs[i], hash, number, d, q) {
            Ok(true) => Ok(Some(i)),
            Ok(false) => first_finalized(bs, i + 1, hash, number, d, q),
            Err(e) => Err(e),
        }
    }
}

/// Whether any node of the tree is finalized, and if so, whether it is a
/// root. Nodes are looked at in the order of iteration.
pub open spec fn finalizes_any<H: PartialEq, N: Ord, V, E>(
    t: Forest<H, N, V>,
    hash: H,
    number: N,
    d: spec_fn(H, H) -> Result<bool, E>,
    q: spec_fn(V) -> bool,
) -> Result<Option<bool>, Error<E>> {
    if reverts(t, number) {
        Err(Error::Revert)
    } else {
        let nodes = model::walk_all(t.roots);
        match first_finalized(nodes, 0, hash, number, d, q) {
            Ok(Some(i)) => Ok(
                Some(
                    exists|k: int|
                        0 <= k < t.roots.len() && (#[trigger] t.roots[k]).hash.is_eq(
                            &nodes[i].hash,
                        ),
                ),
            ),
            Ok(None) => Ok(None),
            Err(e) => Err(e),
        }
    }
}

/// `b` agrees with the node being finalized: it descends from that node, is
/// that node, or is an ancestor of it.
pub open spec fn agrees<H: PartialEq, N: Ord, V, E>(
    b: Branch<H, N, V>,
    hash: H,
    number: N,
    d: spec_fn(H, H) -> Result<bool, E>,
) -> bool {
    ||| is_descendant(b, hash, number, d)
    ||| b.number.is_eq(&number) && b.hash.is_eq(&hash)
    ||| d(b.hash, hash) == Ok::<bool, E>(true)
}

/// What finalizing a root by the node itself or by a descendent of it does.
pub open spec fn finalized_with_descendent<H: PartialEq, N: Ord, V, E>(
    t: Forest<H, N, V>,
    hash: H,
    number: N,
    d: spec_fn(H, H) -> Result<bool, E>,
    q: spec_fn(V) -> bool,
) -> (Forest<H, N, V>, Result<FinalizationResult<V>, Error<E>>) {
    let keep = |b: Branch<H, N, V>| agrees(b, hash, number, d);
    if reverts(t, number) {
        (t, Err(Error::Revert))
    } else {
        match first_finalized(t.roots, 0, hash, number, d, q) {
            Ok(Some(i)) => (
                kept(opened(t, i), number, keep),
                Ok(FinalizationResult::Changed(Some(t.roots[i].data))),
            ),
            Ok(None) => {
                let after = kept(t, number, keep);
                (after, Ok(dropped(t.roots, after.roots)))
            },
            Err(e) => (t, Err(e)),
        }
    }
}

/// `b` is the node with the given hash and number or an ancestor of it.
pub open spec fn leads_to<H: PartialEq, N: Ord, V, E>(
    b: Branch<H, N, V>,
    hash: H,
    number: N,
    d: spec_fn(H, H) -> Result<bool, E>,
) -> bool {
    ||| b.number.is_eq(&number) && b.hash.is_eq(&hash)
    ||| is_ancestor(b, hash, number, d)
}

/// The first of the branches from the `i`-th on that leads to the node with
/// the given hash and number.
pub open spec fn heir<H: PartialEq, N: Ord, V, E>(
    bs: Seq<Branch<H, N, V>>,
    i: int,
    hash: H,
    number: N,
    d: spec_fn(H, H) -> Result<bool, E>,
) -> Option<int>
    decreases bs.len() - i,
{
    if i < 0 || i >= bs.len() {
        None
    } else if leads_to(bs[i], hash, number, d) {
        Some(i)
    } else {
        heir(bs, i + 1, hash, number, d)
    }
}

/// The one child that stays below the new root, if there is one.
pub open spec fn inherited<H, N, V>(b: Branch<H, N, V>, heir: Option<int>) -> Branch<H, N, V> {
    match heir {
        Some(i) => Branch { children: seq![b.children[i]], ..b },
        None => Branch { children: Seq::empty(), ..b },
    }
}

/// The children that do not stay below the new root.
pub open spec fn disowned<H, N, V>(b: Branch<H, N, V>, heir: Option<int>) -> Seq<Branch<H, N, V>> {
    match heir {
        Some(i) => b.children.remove(i),
        None => b.children,
    }
}

/// What pruning does: the node that is found becomes the only root, with only
/// that one of its children which leads to the target. All other nodes are
/// returned.
pub open spec fn pruned<H: PartialEq, N: Ord, V, E>(
    t: Forest<H, N, V>,
    hash: H,
    number: N,
    d: spec_fn(H, H) -> Result<bool, E>,
    q: spec_fn(V) -> bool,
) -> (Forest<H, N, V>, Result<Seq<(H, N, V)>, Error<E>>) {
    match search::find(t.roots, 0, hash, number, d, q) {
        Ok(Some(path)) => {
            let b = model::node_at(t.roots, path);
            let heir = heir(b.children, 0, hash, number, d);
            (
                Forest { roots: seq![balance::rebalanced(inherited(b, heir))], ..t },
                Ok(
                    model::entries(
                        model::walk_back(model::cut_at(t.roots, path) + disowned(b, heir)),
                    ),
                ),
            )
        },
        Ok(None) => (t, Ok(Seq::empty())),
        Err(e) => (t, Err(e)),
    }
}

} // verus!
