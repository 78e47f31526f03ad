//! What finalizing and pruning keep, and what they reach, as long as the
//! client tells the truth.

use vstd::prelude::*;
use vstd::std_specs::cmp::{PartialEqIs, PartialOrdIs, PartialOrdSpec};

use crate::balance;
use crate::contents;
use crate::error::{Error, FinalizationResult};
use crate::finalization;
use crate::laws::finalizing;
use crate::laws::searching;
use crate::laws::truthful;
use crate::model;
use crate::model::{Branch, Forest};
use crate::placement;
use crate::search;

verus! {

/// Roots can be dropped.
proof fn lemma_filter_mirrors<H, N: Ord, V>(
    bs: Seq<Branch<H, N, V>>,
    keep: spec_fn(Branch<H, N, V>) -> bool,
    above: spec_fn(H, H) -> bool,
    number: spec_fn(H) -> N,
)
    requires
        truthful::mirrors_all(bs, above, number),
    ensures
        truthful::mirrors_all(bs.filter(keep), above, number),
    decreases bs.len(),
{
    reveal(Seq::filter);
    if bs.len() > 0 {
        let rest = bs.drop_last();
        truthful::lemma_drop_last_mirrors(bs, above, number);
        lemma_filter_mirrors(rest, keep, above, number);
        finalizing::lemma_filter_members(rest, keep);
        let left = rest.filter(keep);
        assert forall|i: int| 0 <= i < left.len() implies truthful::unrelated(
            #[trigger] left[i],
            bs.last(),
            above,
        ) by {
            assert(rest.contains(left[i]));
            let j = choose|j: int| 0 <= j < rest.len() && rest[j] == left[i];
            assert(truthful::unrelated(rest[j], bs.last(), above));
        }
        assert(truthful::mirrors(bs[bs.len() - 1], above, number));
        truthful::lemma_push_mirrors(left, bs.last(), above, number);
    }
}

/// A branch can be removed.
proof fn lemma_swap_removed_mirrors<H, N: Ord, V>(
    bs: Seq<Branch<H, N, V>>,
    i: int,
    above: spec_fn(H, H) -> bool,
    number: spec_fn(H) -> N,
)
    requires
        truthful::mirrors_all(bs, above, number),
        0 <= i < bs.len(),
    ensures
        truthful::mirrors_all(finalization::swap_removed(bs, i), above, number),
        forall|k: int|
            0 <= k < finalization::swap_removed(bs, i).len() ==> truthful::unrelated(
                bs[i],
                #[trigger] finalization::swap_removed(bs, i)[k],
                above,
            ),
{
    let left = finalization::swap_removed(bs, i);
    assert forall|k: int| 0 <= k < left.len() implies truthful::mirrors(
        #[trigger] left[k],
        above,
        number,
    ) && truthful::unrelated(bs[i], left[k], above) by {
        let j = if k == i { bs.len() - 1 } else { k };
        assert(left[k] == bs[j]);
        truthful::lemma_siblings(bs, i, j, above, number);
    }
    assert forall|k: int, l: int| 0 <= k < l < left.len() implies truthful::unrelated(
        #[trigger] left[k],
        #[trigger] left[l],
        above,
    ) by {
        let j = if k == i { bs.len() - 1 } else { k };
        let m = if l == i { bs.len() - 1 } else { l };
        truthful::lemma_siblings(bs, j, m, above, number);
    }
}

/// A branch can be replaced by its children.
proof fn lemma_opened_mirrors<H, N: Ord, V>(
    bs: Seq<Branch<H, N, V>>,
    i: int,
    above: spec_fn(H, H) -> bool,
    number: spec_fn(H) -> N,
)
    requires
        truthful::is_ancestry(above, number),
        truthful::mirrors_all(bs, above, number),
        0 <= i < bs.len(),
    ensures
        truthful::mirrors_all(
            finalization::swap_removed(bs, i) + bs[i].children,
            above,
            number,
        ),
{
    let left = finalization::swap_removed(bs, i);
    let b = bs[i];
    lemma_swap_removed_mirrors(bs, i, above, number);
    assert(truthful::mirrors(b, above, number));
    let all = left + b.children;
    assert forall|k: int, l: int| 0 <= k < l < all.len() implies truthful::unrelated(
        #[trigger] all[k],
        #[trigger] all[l],
        above,
    ) by {
        if l < left.len() {
            assert(truthful::unrelated(left[k], left[l], above));
        } else if k >= left.len() {
            truthful::lemma_siblings(b.children, k - left.len(), l - left.len(), above, number);
        } else {
            let c = b.children[l - left.len()];
            assert(above(b.hash, c.hash));
            assert(truthful::unrelated(b, left[k], above));
        }
    }
}

/// Opening ancestors keeps what the branches show of the ancestry.
proof fn lemma_open_ancestors_mirrors<H: PartialEq, N: Ord, V, E>(
    bs: Seq<Branch<H, N, V>>,
    i: int,
    changed: bool,
    hash: H,
    n: N,
    d: spec_fn(H, H) -> Result<bool, E>,
    above: spec_fn(H, H) -> bool,
    number: spec_fn(H) -> N,
)
    requires
        truthful::is_ancestry(above, number),
        truthful::mirrors_all(bs, above, number),
        0 <= i <= bs.len(),
    ensures
        truthful::mirrors_all(
            finalization::open_ancestors(bs, i, changed, hash, n, d).0,
            above,
            number,
        ),
    decreases model::walk_all(bs.skip(i)).len(),
{
    if i < bs.len() && !bs[i].hash.is_eq(&hash) {
        finalization::lemma_open_shrinks(bs, i);
        if finalization::is_descendant(bs[i], hash, n, d) {
            lemma_open_ancestors_mirrors(bs, i + 1, changed, hash, n, d, above, number);
        } else if finalization::is_ancestor(bs[i], hash, n, d) {
            lemma_opened_mirrors(bs, i, above, number);
            lemma_open_ancestors_mirrors(
                finalization::swap_removed(bs, i) + bs[i].children,
                i,
                true,
                hash,
                n,
                d,
                above,
                number,
            );
        } else {
            lemma_swap_removed_mirrors(bs, i, above, number);
            lemma_open_ancestors_mirrors(
                finalization::swap_removed(bs, i),
                i,
                true,
                hash,
                n,
                d,
                above,
                number,
            );
        }
    }
}

/// The tree still shows the ancestry of its nodes after any of the ways to
/// finalize, and after pruning.
pub proof fn law_finalize_keeps_mirror<H: PartialEq, N: Ord, V, E>(
    t: Forest<H, N, V>,
    hash: H,
    n: N,
    d: spec_fn(H, H) -> Result<bool, E>,
    q: spec_fn(V) -> bool,
    above: spec_fn(H, H) -> bool,
    number: spec_fn(H) -> N,
)
    requires
        truthful::is_ancestry(above, number),
        truthful::mirrors_all(t.roots, above, number),
    ensures
        truthful::mirrors_all(finalization::finalized(t, hash, n, d).0.roots, above, number),
        truthful::mirrors_all(
            finalization::finalized_with_ancestors(t, hash, n, d).0.roots,
            above,
            number,
        ),
        truthful::mirrors_all(
            finalization::finalized_with_descendent(t, hash, n, d, q).0.roots,
            above,
            number,
        ),
        truthful::mirrors_all(finalization::pruned(t, hash, n, d, q).0.roots, above, number),
{
    finalizing::lemma_first_with_hash(t.roots, 0, hash);
    finalizing::lemma_first_finalized(t.roots, 0, hash, n, d, q);
    finalizing::lemma_open_ancestors(t.roots, 0, false, hash, n, d);
    lemma_open_ancestors_mirrors(t.roots, 0, false, hash, n, d, above, number);
    lemma_filter_mirrors(
        t.roots,
        |b: Branch<H, N, V>| finalization::is_descendant(b, hash, n, d),
        above,
        number,
    );
    let keep = |b: Branch<H, N, V>| finalization::agrees(b, hash, n, d);
    lemma_filter_mirrors(t.roots, keep, above, number);
    match finalization::first_with_hash(t.roots, 0, hash) {
        Some(i) => {
            assert(truthful::mirrors(t.roots[i], above, number));
        },
        None => {},
    }
    let (left, at, changed) = finalization::open_ancestors(t.roots, 0, false, hash, n, d);
    match at {
        Some(i) => {
            assert(truthful::mirrors(left[i], above, number));
        },
        None => {},
    }
    match finalization::first_finalized(t.roots, 0, hash, n, d, q) {
        Ok(Some(i)) => {
            assert(truthful::mirrors(t.roots[i], above, number));
            lemma_filter_mirrors(t.roots[i].children, keep, above, number);
        },
        _ => {},
    }
    lemma_prune_keeps_mirror(t, hash, n, d, q, above, number);
}

/// Pruning keeps what the tree shows of the ancestry.
proof fn lemma_prune_keeps_mirror<H: PartialEq, N: Ord, V, E>(
    t: Forest<H, N, V>,
    hash: H,
    n: N,
    d: spec_fn(H, H) -> Result<bool, E>,
    q: spec_fn(V) -> bool,
    above: spec_fn(H, H) -> bool,
    number: spec_fn(H) -> N,
)
    requires
        truthful::is_ancestry(above, number),
        truthful::mirrors_all(t.roots, above, number),
    ensures
        truthful::mirrors_all(finalization::pruned(t, hash, n, d, q).0.roots, above, number),
{
    match search::find(t.roots, 0, hash, n, d, q) {
        Ok(Some(path)) => {
            finalizing::law_find_is_in_tree(t.roots, hash, n, d, q);
            let b = model::node_at(t.roots, path);
            assert(truthful::mirrors(t.roots[path.last()], above, number));
            truthful::lemma_below(t.roots[path.last()], path.drop_last(), above, number);
            let heir = finalization::heir(b.children, 0, hash, n, d);
            finalizing::lemma_heir(b.children, 0, hash, n, d);
            let root = finalization::inherited(b, heir);
            assert(truthful::mirrors_all(root.children, above, number));
            assert(truthful::mirrors(root, above, number));
            let roots = seq![root];
            assert(truthful::mirrors_all(roots, above, number));
            truthful::law_rebalance_keeps_mirror(roots, above, number);
            balance::lemma_rebalanced_one(root);
        },
        _ => {},
    }
}

/// A branch other than the one that holds the target is neither it nor an
/// ancestor of it.
proof fn lemma_off_path<H, N: Ord, V>(
    bs: Seq<Branch<H, N, V>>,
    i: int,
    path: Seq<int>,
    above: spec_fn(H, H) -> bool,
    number: spec_fn(H) -> N,
)
    requires
        truthful::is_ancestry(above, number),
        truthful::mirrors_all(bs, above, number),
        model::is_path(bs, path),
        0 <= i < bs.len(),
    ensures
        ({
            let target = model::node_at(bs, path);
            &&& path.last() != i ==> bs[i].hash != target.hash && !above(bs[i].hash, target.hash)
            &&& path.last() == i && path.len() > 1 ==> above(bs[i].hash, target.hash)
                && bs[i].hash != target.hash && !above(target.hash, bs[i].hash)
                && bs[i].number.is_lt(&number(target.hash))
        }),
{
    let top = bs[path.last()];
    assert(truthful::mirrors(top, above, number));
    truthful::lemma_below(top, path.drop_last(), above, number);
    if path.last() != i {
        truthful::lemma_siblings(bs, i, path.last(), above, number);
    }
}

/// The node at `path` is the only one with the given hash, and the client
/// knows each node above it as a lower ancestor of it and not as a descendant.
/// Nothing is asked of the answers about any other node.
pub open spec fn is_known_at<H: PartialEq, N: Ord, V, E>(
    bs: Seq<Branch<H, N, V>>,
    path: Seq<int>,
    hash: H,
    n: N,
    d: spec_fn(H, H) -> Result<bool, E>,
) -> bool
    decreases path.len(),
{
    &&& path.len() > 0
    &&& 0 <= path.last() < bs.len()
    &&& forall|j: int|
        0 <= j < bs.len() && j != path.last() ==> searching::lacks(#[trigger] bs[j], hash)
    &&& if path.len() == 1 {
        bs[path.last()].hash.is_eq(&hash)
    } else {
        &&& !bs[path.last()].hash.is_eq(&hash)
        &&& bs[path.last()].number.is_lt(&n)
        &&& d(bs[path.last()].hash, hash) == Ok::<bool, E>(true)
        &&& !(bs[path.last()].number.is_gt(&n) && d(hash, bs[path.last()].hash) == Ok::<bool, E>(
            true,
        ))
        &&& is_known_at(bs[path.last()].children, path.drop_last(), hash, n, d)
    }
}

/// A node is still known where its branch is moved to.
proof fn lemma_known_moved<H: PartialEq, N: Ord, V, E>(
    bs: Seq<Branch<H, N, V>>,
    path: Seq<int>,
    all: Seq<Branch<H, N, V>>,
    j: int,
    hash: H,
    n: N,
    d: spec_fn(H, H) -> Result<bool, E>,
)
    requires
        is_known_at(bs, path, hash, n, d),
        0 <= j < all.len(),
        all[j] == bs[path.last()],
        forall|m: int| 0 <= m < all.len() && m != j ==> searching::lacks(#[trigger] all[m], hash),
    ensures
        is_known_at(all, path.drop_last().push(j), hash, n, d),
        model::node_at(all, path.drop_last().push(j)) == model::node_at(bs, path),
{
    let moved = path.drop_last().push(j);
    assert(moved.drop_last() =~= path.drop_last());
    assert(moved.last() == j);
}

/// Opening the ancestors of a node that is known ends at that node.
proof fn lemma_open_ancestors_reaches<H: PartialEq, N: Ord, V, E>(
    bs: Seq<Branch<H, N, V>>,
    i: int,
    changed: bool,
    path: Seq<int>,
    hash: H,
    n: N,
    d: spec_fn(H, H) -> Result<bool, E>,
)
    requires
        is_known_at(bs, path, hash, n, d),
        0 <= i <= path.last(),
    ensures
        ({
            let (left, at, c) = finalization::open_ancestors(bs, i, changed, hash, n, d);
            at matches Some(k) && 0 <= k < left.len() && left[k] == model::node_at(bs, path)
        }),
    decreases model::walk_all(bs.skip(i)).len(),
{
    let b = bs[i];
    let less = finalization::swap_removed(bs, i);
    let opened = less + b.children;
    finalization::lemma_open_shrinks(bs, i);
    if path.last() != i {
        assert(searching::lacks(b, hash));
        let j = if path.last() == bs.len() - 1 { i } else { path.last() };
        assert(less[j] == bs[path.last()]);
        assert forall|m: int| 0 <= m < less.len() && m != j implies searching::lacks(
            #[trigger] less[m],
            hash,
        ) by {
            assert(less[m] == bs[if m == i { bs.len() - 1 } else { m }]);
        }
        if finalization::is_descendant(b, hash, n, d) {
            lemma_open_ancestors_reaches(bs, i + 1, changed, path, hash, n, d);
        } else if finalization::is_ancestor(b, hash, n, d) {
            assert forall|m: int| 0 <= m < opened.len() && m != j implies searching::lacks(
                #[trigger] opened[m],
                hash,
            ) by {
                if m < less.len() {
                    assert(opened[m] == less[m]);
                } else {
                    assert(opened[m] == b.children[m - less.len()]);
                }
            }
            lemma_known_moved(bs, path, opened, j, hash, n, d);
            lemma_open_ancestors_reaches(
                opened,
                i,
                true,
                path.drop_last().push(j),
                hash,
                n,
                d,
            );
        } else {
            lemma_known_moved(bs, path, less, j, hash, n, d);
            lemma_open_ancestors_reaches(less, i, true, path.drop_last().push(j), hash, n, d);
        }
    } else if path.len() > 1 {
        let below = path.drop_last();
        let j = less.len() + below.last();
        assert(is_known_at(b.children, below, hash, n, d));
        assert(opened[j] == b.children[below.last()]);
        assert forall|m: int| 0 <= m < opened.len() && m != j implies searching::lacks(
            #[trigger] opened[m],
            hash,
        ) by {
            if m < less.len() {
                assert(opened[m] == bs[if m == i { bs.len() - 1 } else { m }]);
            } else {
                assert(opened[m] == b.children[m - less.len()]);
            }
        }
        lemma_known_moved(b.children, below, opened, j, hash, n, d);
        lemma_open_ancestors_reaches(opened, i, true, below.drop_last().push(j), hash, n, d);
    }
}

/// A node can be finalized together with its ancestors whenever the client
/// knows these, whatever it answers about all other nodes: the data of the node
/// is returned, its children become the roots, and its number is the best
/// finalized one.
pub proof fn law_finalize_with_ancestors_reaches_known<H: PartialEq, N: Ord, V, E>(
    t: Forest<H, N, V>,
    path: Seq<int>,
    hash: H,
    n: N,
    d: spec_fn(H, H) -> Result<bool, E>,
)
    requires
        is_known_at(t.roots, path, hash, n, d),
        !finalization::reverts(t, n),
    ensures
        ({
            let target = model::node_at(t.roots, path);
            finalization::finalized_with_ancestors(t, hash, n, d) == (
                Forest {
                    roots: target.children,
                    best_finalized_number: Some(target.number),
                },
                Ok::<_, Error<E>>(FinalizationResult::Changed(Some(target.data))),
            )
        }),
{
    lemma_open_ancestors_reaches(t.roots, 0, false, path, hash, n, d);
    finalizing::lemma_first_with_hash(t.roots, 0, hash);
    match finalization::first_with_hash(t.roots, 0, hash) {
        Some(i) => {
            if i != path.last() {
                assert(searching::lacks(t.roots[i], hash));
            }
        },
        None => {},
    }
}

/// A client that tells the truth knows every node of the tree.
proof fn lemma_truth_is_known<H: PartialEq, N: Ord, V, E>(
    bs: Seq<Branch<H, N, V>>,
    path: Seq<int>,
    above: spec_fn(H, H) -> bool,
    number: spec_fn(H) -> N,
)
    requires
        truthful::is_ancestry(above, number),
        truthful::exact_hashes::<H>(),
        truthful::mirrors_all(bs, above, number),
        model::is_path(bs, path),
    ensures
        ({
            let hash = model::node_at(bs, path).hash;
            is_known_at(bs, path, hash, number(hash), truthful::truth::<H, E>(above))
        }),
    decreases path.len(),
{
    let hash = model::node_at(bs, path).hash;
    let top = bs[path.last()];
    lemma_off_path(bs, path.last(), path, above, number);
    assert(truthful::mirrors(top, above, number));
    assert(top.hash.is_eq(&hash) == (top.hash == hash));
    assert forall|j: int| 0 <= j < bs.len() && j != path.last() implies searching::lacks(
        #[trigger] bs[j],
        hash,
    ) by {
        truthful::lemma_siblings(bs, path.last(), j, above, number);
        truthful::lemma_quiet::<H, N, V, E>(top, bs[j], hash, above, number);
    }
    if path.len() > 1 {
        lemma_truth_is_known::<H, N, V, E>(top.children, path.drop_last(), above, number);
    }
}

/// Every node of the tree can be finalized together with its ancestors: its
/// data is returned, its children become the roots, and its number is the
/// best finalized one.
pub proof fn law_finalize_with_ancestors_reaches<H: PartialEq, N: Ord, V, E>(
    t: Forest<H, N, V>,
    path: Seq<int>,
    above: spec_fn(H, H) -> bool,
    number: spec_fn(H) -> N,
)
    requires
        truthful::is_ancestry(above, number),
        truthful::exact_hashes::<H>(),
        truthful::mirrors_all(t.roots, above, number),
        model::is_path(t.roots, path),
        !finalization::reverts(t, model::node_at(t.roots, path).number),
    ensures
        ({
            let target = model::node_at(t.roots, path);
            finalization::finalized_with_ancestors(
                t,
                target.hash,
                target.number,
                truthful::truth::<H, E>(above),
            ) == (
                Forest {
                    roots: target.children,
                    best_finalized_number: Some(target.number),
                },
                Ok::<_, Error<E>>(FinalizationResult::Changed(Some(target.data))),
            )
        }),
{
    let target = model::node_at(t.roots, path);
    assert(truthful::mirrors(t.roots[path.last()], above, number));
    truthful::lemma_below(t.roots[path.last()], path.drop_last(), above, number);
    lemma_truth_is_known::<H, N, V, E>(t.roots, path, above, number);
    law_finalize_with_ancestors_reaches_known(
        t,
        path,
        target.hash,
        target.number,
        truthful::truth::<H, E>(above),
    );
}

/// The nodes on the path, from the root down.
pub open spec fn on_path<H, N, V>(bs: Seq<Branch<H, N, V>>, path: Seq<int>) -> Seq<
    Branch<H, N, V>,
>
    decreases path.len(),
{
    if path.len() == 0 {
        Seq::empty()
    } else {
        seq![bs[path.last()]] + on_path(bs[path.last()].children, path.drop_last())
    }
}

/// What finalizing one node after the other does: the tree in the end, and the
/// result of each step.
pub open spec fn finalized_in_turn<H: PartialEq, N: Ord, V, E>(
    t: Forest<H, N, V>,
    nodes: Seq<Branch<H, N, V>>,
    d: spec_fn(H, H) -> Result<bool, E>,
) -> (Forest<H, N, V>, Seq<Result<FinalizationResult<V>, Error<E>>>)
    decreases nodes.len(),
{
    if nodes.len() == 0 {
        (t, Seq::empty())
    } else {
        let (next, r) = finalization::finalized(t, nodes[0].hash, nodes[0].number, d);
        let (after, rs) = finalized_in_turn(next, nodes.drop_first(), d);
        (after, seq![r] + rs)
    }
}

/// Every node on the path is told apart from its siblings by its hash, and its
/// number is not at or below that of the node above it.
pub open spec fn is_stepwise<H: PartialEq, N: Ord, V>(
    bs: Seq<Branch<H, N, V>>,
    path: Seq<int>,
) -> bool
    decreases path.len(),
{
    &&& path.len() > 0
    &&& 0 <= path.last() < bs.len()
    &&& forall|j: int|
        0 <= j < bs.len() ==> (#[trigger] bs[j]).hash.is_eq(&bs[path.last()].hash) == (j
            == path.last())
    &&& path.len() > 1 ==> {
        let below = path.drop_last();
        &&& is_stepwise(bs[path.last()].children, below)
        &&& !bs[path.last()].children[below.last()].number.is_le(&bs[path.last()].number)
    }
}

/// The nodes on a path can be finalized one after the other.
proof fn lemma_in_turn<H: PartialEq, N: Ord, V, E>(
    t: Forest<H, N, V>,
    path: Seq<int>,
    d: spec_fn(H, H) -> Result<bool, E>,
)
    requires
        is_stepwise(t.roots, path),
        !finalization::reverts(t, t.roots[path.last()].number),
    ensures
        ({
            let target = model::node_at(t.roots, path);
            let nodes = on_path(t.roots, path);
            let (after, rs) = finalized_in_turn(t, nodes, d);
            &&& after == (Forest {
                roots: target.children,
                best_finalized_number: Some(target.number),
            })
            &&& nodes.len() == path.len()
            &&& nodes.last() == target
            &&& rs.len() == nodes.len()
            &&& forall|i: int|
                0 <= i < rs.len() ==> #[trigger] rs[i] == Ok::<_, Error<E>>(
                    FinalizationResult::Changed(Some(nodes[i].data)),
                )
        }),
    decreases path.len(),
{
    let k = path.last();
    let root = t.roots[k];
    let below = path.drop_last();
    let nodes = on_path(t.roots, path);
    let next = finalization::opened(t, k);
    finalizing::lemma_first_with_hash(t.roots, 0, root.hash);
    assert(t.roots[k].hash.is_eq(&root.hash));
    assert(finalization::first_with_hash(t.roots, 0, root.hash) == Some(k));
    assert(nodes[0] == root);
    assert(nodes.drop_first() =~= on_path(root.children, below));
    if path.len() > 1 {
        lemma_in_turn(next, below, d);
    } else {
        assert(on_path(root.children, below) =~= Seq::empty());
    }
}

/// Finalizing a node together with its ancestors is the same as finalizing the
/// nodes on its path one after the other, from the root down, whenever the
/// client knows the ancestors: each step succeeds, the last one with the same
/// result, and the tree is the same in the end.
pub proof fn law_known_ancestors_in_turn<H: PartialEq, N: Ord, V, E>(
    t: Forest<H, N, V>,
    path: Seq<int>,
    hash: H,
    n: N,
    d: spec_fn(H, H) -> Result<bool, E>,
)
    requires
        is_known_at(t.roots, path, hash, n, d),
        is_stepwise(t.roots, path),
        !finalization::reverts(t, n),
        !finalization::reverts(t, t.roots[path.last()].number),
    ensures
        ({
            let nodes = on_path(t.roots, path);
            let (after, rs) = finalized_in_turn(t, nodes, d);
            &&& rs.len() == path.len()
            &&& forall|i: int|
                0 <= i < rs.len() ==> #[trigger] rs[i] == Ok::<_, Error<E>>(
                    FinalizationResult::Changed(Some(nodes[i].data)),
                )
            &&& finalization::finalized_with_ancestors(t, hash, n, d) == (after, rs.last())
        }),
{
    law_finalize_with_ancestors_reaches_known(t, path, hash, n, d);
    lemma_in_turn(t, path, d);
}

/// In a tree that shows the ancestry, every path is stepwise.
proof fn lemma_mirror_is_stepwise<H: PartialEq, N: Ord, V>(
    bs: Seq<Branch<H, N, V>>,
    path: Seq<int>,
    above: spec_fn(H, H) -> bool,
    number: spec_fn(H) -> N,
)
    requires
        truthful::is_ancestry(above, number),
        truthful::exact_hashes::<H>(),
        searching::strict_numbers::<N>(),
        truthful::mirrors_all(bs, above, number),
        model::is_path(bs, path),
    ensures
        is_stepwise(bs, path),
    decreases path.len(),
{
    let k = path.last();
    let root = bs[k];
    assert(truthful::mirrors(root, above, number));
    assert forall|j: int| 0 <= j < bs.len() implies (#[trigger] bs[j]).hash.is_eq(&root.hash) == (j
        == k) by {
        assert(bs[j].hash.is_eq(&root.hash) == (bs[j].hash == root.hash));
        if j != k {
            truthful::lemma_siblings(bs, j, k, above, number);
        }
    }
    if path.len() > 1 {
        let below = path.drop_last();
        lemma_mirror_is_stepwise(root.children, below, above, number);
        let child = root.children[below.last()];
        assert(above(root.hash, child.hash));
        assert(truthful::mirrors(child, above, number));
        assert(root.number.is_lt(&child.number));
    }
}

/// Finalizing a node together with its ancestors is the same as finalizing the
/// nodes on its path one after the other, from the root down: each step
/// succeeds, the last one with the same result, and the tree is the same in the
/// end. Neither the root of the path nor the node itself may be finalized
/// already.
pub proof fn law_ancestors_in_turn<H: PartialEq, N: Ord, V, E>(
    t: Forest<H, N, V>,
    path: Seq<int>,
    above: spec_fn(H, H) -> bool,
    number: spec_fn(H) -> N,
)
    requires
        truthful::is_ancestry(above, number),
        truthful::exact_hashes::<H>(),
        searching::strict_numbers::<N>(),
        truthful::mirrors_all(t.roots, above, number),
        model::is_path(t.roots, path),
        !finalization::reverts(t, model::node_at(t.roots, path).number),
        !finalization::reverts(t, t.roots[path.last()].number),
    ensures
        ({
            let d = truthful::truth::<H, E>(above);
            let target = model::node_at(t.roots, path);
            let nodes = on_path(t.roots, path);
            let (after, rs) = finalized_in_turn(t, nodes, d);
            &&& rs.len() == path.len()
            &&& forall|i: int|
                0 <= i < rs.len() ==> #[trigger] rs[i] == Ok::<_, Error<E>>(
                    FinalizationResult::Changed(Some(nodes[i].data)),
                )
            &&& finalization::finalized_with_ancestors(t, target.hash, target.number, d) == (
                after,
                rs.last(),
            )
        }),
{
    let d = truthful::truth::<H, E>(above);
    let target = model::node_at(t.roots, path);
    assert(truthful::mirrors(t.roots[path.last()], above, number));
    truthful::lemma_below(t.roots[path.last()], path.drop_last(), above, number);
    lemma_truth_is_known::<H, N, V, E>(t.roots, path, above, number);
    lemma_mirror_is_stepwise(t.roots, path, above, number);
    law_known_ancestors_in_turn(t, path, target.hash, target.number, d);
}

/// A number is above all numbers that are below it.
pub open spec fn mutual_numbers<N: Ord>() -> bool {
    forall|a: N, b: N| #![trigger a.partial_cmp_spec(&b)] a.is_lt(&b) ==> b.is_gt(&a)
}

/// A node of the tree that is not a root cannot be finalized on its own: its
/// ancestors come first.
pub proof fn law_finalize_refuses_inner_node<H: PartialEq, N: Ord, V, E>(
    t: Forest<H, N, V>,
    path: Seq<int>,
    above: spec_fn(H, H) -> bool,
    number: spec_fn(H) -> N,
)
    requires
        truthful::is_ancestry(above, number),
        truthful::exact_hashes::<H>(),
        mutual_numbers::<N>(),
        truthful::mirrors_all(t.roots, above, number),
        model::is_path(t.roots, path),
        path.len() > 1,
        !finalization::reverts(t, model::node_at(t.roots, path).number),
    ensures
        ({
            let target = model::node_at(t.roots, path);
            finalization::finalized(
                t,
                target.hash,
                target.number,
                truthful::truth::<H, E>(above),
            ) == (t, Err::<FinalizationResult<V>, Error<E>>(Error::UnfinalizedAncestor))
        }),
{
    let target = model::node_at(t.roots, path);
    let k = path.last();
    assert(truthful::mirrors(t.roots[k], above, number));
    truthful::lemma_below(t.roots[k], path.drop_last(), above, number);
    lemma_off_path(t.roots, k, path, above, number);
    finalizing::lemma_first_with_hash(t.roots, 0, target.hash);
    match finalization::first_with_hash(t.roots, 0, target.hash) {
        Some(i) => {
            lemma_off_path(t.roots, i, path, above, number);
            assert(t.roots[i].hash == target.hash);
        },
        None => {},
    }
    finalizing::law_finalize_in_order(
        t,
        target.hash,
        target.number,
        truthful::truth::<H, E>(above),
        k,
    );
}

/// No node of the tree is finalized: all of them are above the last finalized
/// number.
pub open spec fn unfinalized<H, N: Ord, V>(t: Forest<H, N, V>) -> bool {
    forall|e: (H, N, V)| #[trigger]
        contents::contents(t.roots).count(e) > 0 ==> !finalization::reverts(t, e.1)
}

/// What branches hold, one of them holds.
proof fn lemma_held_by<H, N, V>(bs: Seq<Branch<H, N, V>>, e: (H, N, V)) -> (i: int)
    requires
        contents::contents(bs).count(e) > 0,
    ensures
        0 <= i < bs.len(),
        contents::contents_of(bs[i]).count(e) > 0,
    decreases bs.len(),
{
    if bs.len() == 0 {
        assert(bs =~= Seq::empty());
        contents::lemma_contents_empty::<H, N, V>();
        0
    } else {
        let rest = bs.drop_last();
        assert(rest.push(bs.last()) =~= bs);
        contents::lemma_contents_push(rest, bs.last());
        if contents::contents_of(bs.last()).count(e) > 0 {
            bs.len() - 1
        } else {
            lemma_held_by(rest, e)
        }
    }
}

/// Everything that a branch holds is its first node or descends from it.
proof fn lemma_held_below<H, N: Ord, V>(
    b: Branch<H, N, V>,
    e: (H, N, V),
    above: spec_fn(H, H) -> bool,
    number: spec_fn(H) -> N,
)
    requires
        truthful::is_ancestry(above, number),
        truthful::mirrors(b, above, number),
        contents::contents_of(b).count(e) > 0,
    ensures
        e.1 == number(e.0),
        e.0 == b.hash || above(b.hash, e.0),
        contents::contents(b.children).count(e) > 0 ==> above(b.hash, e.0),
    decreases b,
{
    if contents::contents(b.children).count(e) > 0 {
        let i = lemma_held_by(b.children, e);
        let child = b.children[i];
        assert(truthful::mirrors(child, above, number));
        assert(above(b.hash, child.hash));
        lemma_held_below(child, e, above, number);
    }
}

/// Neither an import nor finalizing a node, with or without its ancestors,
/// brings about a tree in which a node is finalized.
pub proof fn law_nodes_stay_unfinalized<H: PartialEq, N: Ord, V, E>(
    t: Forest<H, N, V>,
    hash: H,
    data: V,
    above: spec_fn(H, H) -> bool,
    number: spec_fn(H) -> N,
)
    requires
        truthful::is_ancestry(above, number),
        searching::strict_numbers::<N>(),
        truthful::mirrors_all(t.roots, above, number),
        unfinalized(t),
    ensures
        ({
            let d = truthful::truth::<H, E>(above);
            let n = number(hash);
            &&& unfinalized(placement::imported(t, hash, n, data, d).0)
            &&& unfinalized(finalization::finalized(t, hash, n, d).0)
            &&& unfinalized(finalization::finalized_with_ancestors(t, hash, n, d).0)
        }),
{
    let d = truthful::truth::<H, E>(above);
    let n = number(hash);
    searching::law_import_adds_node(t, hash, n, data, d);
    let imported = placement::imported(t, hash, n, data, d).0;
    assert(unfinalized(imported));
    finalizing::lemma_first_with_hash(t.roots, 0, hash);
    match finalization::first_with_hash(t.roots, 0, hash) {
        Some(i) => {
            lemma_opened_unfinalized(t, i, above, number);
        },
        None => {},
    }
    let after = finalization::finalized(t, hash, n, d);
    if finalization::first_with_hash(t.roots, 0, hash) is None && after.1 is Ok {
        finalizing::law_finalize_keeps_descendants(t, hash, n, d);
        law_finalize_keeps_mirror(t, hash, n, d, |v: V| true, above, number);
        lemma_descendants_unfinalized::<H, N, V, E>(after.0, hash, above, number);
    }
    let (left, at, changed) = finalization::open_ancestors(t.roots, 0, false, hash, n, d);
    finalizing::lemma_open_ancestors(t.roots, 0, false, hash, n, d);
    lemma_open_ancestors_mirrors(t.roots, 0, false, hash, n, d, above, number);
    finalizing::lemma_open_ancestors_left(t.roots, 0, false, hash, n, d);
    match at {
        Some(i) => {
            lemma_opened_unfinalized(Forest { roots: left, ..t }, i, above, number);
        },
        None => {
            lemma_descendants_unfinalized::<H, N, V, E>(
                Forest { roots: left, best_finalized_number: Some(n) },
                hash,
                above,
                number,
            );
        },
    }
}

/// Below a finalized root no node is finalized.
proof fn lemma_opened_unfinalized<H, N: Ord, V>(
    t: Forest<H, N, V>,
    i: int,
    above: spec_fn(H, H) -> bool,
    number: spec_fn(H) -> N,
)
    requires
        truthful::is_ancestry(above, number),
        searching::strict_numbers::<N>(),
        truthful::mirrors_all(t.roots, above, number),
        0 <= i < t.roots.len(),
    ensures
        unfinalized(finalization::opened(t, i)),
{
    let b = t.roots[i];
    assert(truthful::mirrors(b, above, number));
    assert forall|e: (H, N, V)| #[trigger]
        contents::contents(b.children).count(e) > 0 implies !e.1.is_le(&b.number) by {
        lemma_held_below(b, e, above, number);
        assert(b.number.is_lt(&e.1));
    }
}

/// Roots that descend from the last finalized node are not finalized, nor is
/// anything below them.
proof fn lemma_descendants_unfinalized<H, N: Ord, V, E>(
    t: Forest<H, N, V>,
    hash: H,
    above: spec_fn(H, H) -> bool,
    number: spec_fn(H) -> N,
)
    requires
        truthful::is_ancestry(above, number),
        searching::strict_numbers::<N>(),
        truthful::mirrors_all(t.roots, above, number),
        t.best_finalized_number == Some(number(hash)),
        forall|k: int|
            0 <= k < t.roots.len() ==> finalization::is_descendant(
                #[trigger] t.roots[k],
                hash,
                number(hash),
                truthful::truth::<H, E>(above),
            ),
    ensures
        unfinalized(t),
{
    assert forall|e: (H, N, V)| #[trigger]
        contents::contents(t.roots).count(e) > 0 implies !e.1.is_le(&number(hash)) by {
        let k = lemma_held_by(t.roots, e);
        assert(truthful::mirrors(t.roots[k], above, number));
        assert(above(hash, t.roots[k].hash));
        lemma_held_below(t.roots[k], e, above, number);
        assert(number(hash).is_lt(&number(e.0)));
    }
}

/// As long as no node of the tree is finalized, whatever is finalized next is
/// above what was finalized before.
pub proof fn law_finalized_number_rises<H: PartialEq, N: Ord, V, E>(
    t: Forest<H, N, V>,
    hash: H,
    n: N,
    d: spec_fn(H, H) -> Result<bool, E>,
    q: spec_fn(V) -> bool,
)
    requires
        unfinalized(t),
    ensures
        finalization::finalized(t, hash, n, d) matches (after, Ok(_)) ==> (
        after.best_finalized_number matches Some(best) && !finalization::reverts(t, best)),
        finalization::finalized_with_ancestors(t, hash, n, d) matches (after, Ok(_)) ==> (
        after.best_finalized_number matches Some(best) && !finalization::reverts(t, best)),
        finalization::finalized_with_descendent(t, hash, n, d, q) matches (after, Ok(_)) ==> (
        after.best_finalized_number matches Some(best) && !finalization::reverts(t, best)),
{
    finalizing::lemma_first_with_hash(t.roots, 0, hash);
    finalizing::lemma_open_ancestors(t.roots, 0, false, hash, n, d);
    let (left, at, changed) = finalization::open_ancestors(t.roots, 0, false, hash, n, d);
    match finalization::first_with_hash(t.roots, 0, hash) {
        Some(i) => {
            contents::lemma_contents_remove(t.roots, i);
            assert(contents::contents(t.roots).count(model::entry(t.roots[i])) > 0);
        },
        None => {},
    }
    match at {
        Some(i) => {
            contents::lemma_contents_remove(left, i);
            assert(contents::contents(left).count(model::entry(left[i])) > 0);
            assert(contents::contents(t.roots).count(model::entry(left[i])) > 0);
        },
        None => {},
    }
}

} // verus!
