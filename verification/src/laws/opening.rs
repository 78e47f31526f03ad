//! What is left of the tree when a block outside of it is finalized with its
//! ancestors.

use vstd::multiset::Multiset;
use vstd::prelude::*;
use vstd::std_specs::cmp::{PartialEqIs, PartialOrdIs};

use crate::error::{Error, FinalizationResult};
use crate::finalization;
use crate::laws::finalizing;
use crate::laws::searching;
use crate::model;
use crate::model::{Branch, Forest};

verus! {

/// The topmost descendants of the block at or below `b` that can be reached
/// through ancestors of the block only.
pub open spec fn topmost<H, N: Ord, V, E>(
    b: Branch<H, N, V>,
    hash: H,
    n: N,
    d: spec_fn(H, H) -> Result<bool, E>,
) -> Multiset<Branch<H, N, V>>
    decreases b,
{
    if b.number.is_gt(&n) && d(hash, b.hash) == Ok::<bool, E>(true) {
        Multiset::singleton(b)
    } else if b.number.is_lt(&n) && d(b.hash, hash) == Ok::<bool, E>(true) {
        topmost_all(b.children, hash, n, d)
    } else {
        Multiset::empty()
    }
}

/// The topmost descendants of the block at or below the given branches that
/// can be reached through ancestors of the block only.
pub open spec fn topmost_all<H, N: Ord, V, E>(
    bs: Seq<Branch<H, N, V>>,
    hash: H,
    n: N,
    d: spec_fn(H, H) -> Result<bool, E>,
) -> Multiset<Branch<H, N, V>>
    decreases bs,
{
    if bs.len() == 0 {
        Multiset::empty()
    } else {
        topmost_all(bs.drop_last(), hash, n, d).add(topmost(bs.last(), hash, n, d))
    }
}

/// The node at `path` is a descendant of the block, and every node above it is
/// an ancestor of the block and not a descendant.
pub open spec fn is_topmost_at<H, N: Ord, V, E>(
    bs: Seq<Branch<H, N, V>>,
    path: Seq<int>,
    hash: H,
    n: N,
    d: spec_fn(H, H) -> Result<bool, E>,
) -> bool
    decreases path.len(),
{
    &&& path.len() > 0
    &&& 0 <= path.last() < bs.len()
    &&& if path.len() == 1 {
        bs[path.last()].number.is_gt(&n) && d(hash, bs[path.last()].hash) == Ok::<bool, E>(true)
    } else {
        &&& bs[path.last()].number.is_lt(&n)
        &&& d(bs[path.last()].hash, hash) == Ok::<bool, E>(true)
        &&& !(bs[path.last()].number.is_gt(&n) && d(hash, bs[path.last()].hash) == Ok::<bool, E>(
            true,
        ))
        &&& is_topmost_at(bs[path.last()].children, path.drop_last(), hash, n, d)
    }
}

/// `b` is a lower ancestor of the block and not a higher descendant of it, and
/// it is not the block itself.
pub open spec fn is_passed<H: PartialEq, N: Ord, V, E>(
    b: Branch<H, N, V>,
    hash: H,
    n: N,
    d: spec_fn(H, H) -> Result<bool, E>,
) -> bool {
    &&& !b.hash.is_eq(&hash)
    &&& b.number.is_lt(&n) && d(b.hash, hash) == Ok::<bool, E>(true)
    &&& !(b.number.is_gt(&n) && d(hash, b.hash) == Ok::<bool, E>(true))
}

/// Every node above the one at `path` is a lower ancestor of the block.
pub open spec fn is_reached<H: PartialEq, N: Ord, V, E>(
    bs: Seq<Branch<H, N, V>>,
    path: Seq<int>,
    hash: H,
    n: N,
    d: spec_fn(H, H) -> Result<bool, E>,
) -> bool
    decreases path.len(),
{
    &&& path.len() > 0
    &&& 0 <= path.last() < bs.len()
    &&& path.len() > 1 ==> is_passed(bs[path.last()], hash, n, d) && is_reached(
        bs[path.last()].children,
        path.drop_last(),
        hash,
        n,
        d,
    )
}

/// None of the nodes that are reached has the hash.
spec fn is_unmet<H: PartialEq, N: Ord, V, E>(
    bs: Seq<Branch<H, N, V>>,
    hash: H,
    n: N,
    d: spec_fn(H, H) -> Result<bool, E>,
) -> bool
    decreases bs,
{
    forall|i: int|
        0 <= i < bs.len() ==> !(#[trigger] bs[i]).hash.is_eq(&hash) && (is_passed(
            bs[i],
            hash,
            n,
            d,
        ) ==> is_unmet(bs[i].children, hash, n, d))
}

/// `x` is one of the nodes that are reached.
spec fn is_met<H: PartialEq, N: Ord, V, E>(
    bs: Seq<Branch<H, N, V>>,
    x: Branch<H, N, V>,
    hash: H,
    n: N,
    d: spec_fn(H, H) -> Result<bool, E>,
) -> bool
    decreases bs,
{
    exists|i: int|
        0 <= i < bs.len() && (#[trigger] bs[i] == x || is_passed(bs[i], hash, n, d) && is_met(
            bs[i].children,
            x,
            hash,
            n,
            d,
        ))
}

/// Said by paths, none of the nodes that are reached has the hash.
proof fn lemma_unmet_by_path<H: PartialEq, N: Ord, V, E>(
    bs: Seq<Branch<H, N, V>>,
    hash: H,
    n: N,
    d: spec_fn(H, H) -> Result<bool, E>,
)
    requires
        forall|path: Seq<int>| #[trigger]
            is_reached(bs, path, hash, n, d) ==> !model::node_at(bs, path).hash.is_eq(&hash),
    ensures
        is_unmet(bs, hash, n, d),
    decreases bs,
{
    assert forall|i: int| 0 <= i < bs.len() implies !(#[trigger] bs[i]).hash.is_eq(&hash) && (
    is_passed(bs[i], hash, n, d) ==> is_unmet(bs[i].children, hash, n, d)) by {
        assert(is_reached(bs, seq![i], hash, n, d));
        assert(model::node_at(bs, seq![i]) == bs[i]);
        if is_passed(bs[i], hash, n, d) {
            assert forall|path: Seq<int>| #[trigger]
                is_reached(bs[i].children, path, hash, n, d) implies !model::node_at(
                bs[i].children,
                path,
            ).hash.is_eq(&hash) by {
                let longer = path.push(i);
                assert(longer.drop_last() =~= path);
                assert(is_reached(bs, longer, hash, n, d));
                assert(model::node_at(bs, longer) == model::node_at(bs[i].children, path));
            }
            lemma_unmet_by_path(bs[i].children, hash, n, d);
        }
    }
}

/// A node that is reached and has the hash is not unmet.
proof fn lemma_reached_is_not_unmet<H: PartialEq, N: Ord, V, E>(
    bs: Seq<Branch<H, N, V>>,
    path: Seq<int>,
    hash: H,
    n: N,
    d: spec_fn(H, H) -> Result<bool, E>,
)
    requires
        is_reached(bs, path, hash, n, d),
        model::node_at(bs, path).hash.is_eq(&hash),
    ensures
        !is_unmet(bs, hash, n, d),
    decreases path.len(),
{
    if path.len() > 1 {
        lemma_reached_is_not_unmet(bs[path.last()].children, path.drop_last(), hash, n, d);
    }
}

/// A path to a node that is met.
proof fn lemma_met_by_path<H: PartialEq, N: Ord, V, E>(
    bs: Seq<Branch<H, N, V>>,
    x: Branch<H, N, V>,
    hash: H,
    n: N,
    d: spec_fn(H, H) -> Result<bool, E>,
) -> (path: Seq<int>)
    requires
        is_met(bs, x, hash, n, d),
    ensures
        is_reached(bs, path, hash, n, d),
        model::is_path(bs, path),
        model::node_at(bs, path) == x,
    decreases bs,
{
    let i = choose|i: int|
        0 <= i < bs.len() && (#[trigger] bs[i] == x || is_passed(bs[i], hash, n, d) && is_met(
            bs[i].children,
            x,
            hash,
            n,
            d,
        ));
    if bs[i] == x {
        seq![i]
    } else {
        let below = lemma_met_by_path(bs[i].children, x, hash, n, d);
        let path = below.push(i);
        assert(path.drop_last() =~= below);
        path
    }
}

/// Opening ancestors ends at a node with the hash if one is reached, and only
/// then.
proof fn lemma_open_ancestors_meets<H: PartialEq, N: Ord, V, E>(
    bs: Seq<Branch<H, N, V>>,
    i: int,
    changed: bool,
    hash: H,
    n: N,
    d: spec_fn(H, H) -> Result<bool, E>,
)
    requires
        0 <= i <= bs.len(),
        forall|k: int|
            0 <= k < i ==> !(#[trigger] bs[k]).hash.is_eq(&hash) && finalization::is_descendant(
                bs[k],
                hash,
                n,
                d,
            ),
    ensures
        ({
            let (left, at, c) = finalization::open_ancestors(bs, i, changed, hash, n, d);
            match at {
                Some(k) => 0 <= k < left.len() && left[k].hash.is_eq(&hash) && is_met(
                    bs,
                    left[k],
                    hash,
                    n,
                    d,
                ),
                None => is_unmet(bs, hash, n, d),
            }
        }),
    decreases model::walk_all(bs.skip(i)).len(),
{
    if i >= bs.len() {
        assert forall|k: int| 0 <= k < bs.len() implies !(#[trigger] bs[k]).hash.is_eq(&hash) && (
        is_passed(bs[k], hash, n, d) ==> is_unmet(bs[k].children, hash, n, d)) by {}
    } else if bs[i].hash.is_eq(&hash) {
        assert(is_met(bs, bs[i], hash, n, d));
    } else {
        let b = bs[i];
        let less = finalization::swap_removed(bs, i);
        finalization::lemma_open_shrinks(bs, i);
        if finalization::is_descendant(b, hash, n, d) {
            lemma_open_ancestors_meets(bs, i + 1, changed, hash, n, d);
        } else {
            let passed = finalization::is_ancestor(b, hash, n, d);
            let next = if passed { less + b.children } else { less };
            lemma_open_ancestors_meets(next, i, true, hash, n, d);
            let (left, at, c) = finalization::open_ancestors(next, i, true, hash, n, d);
            assert(passed == is_passed(b, hash, n, d));
            match at {
                Some(k) => {
                    let x = left[k];
                    let j = choose|j: int|
                        0 <= j < next.len() && (#[trigger] next[j] == x || is_passed(
                            next[j],
                            hash,
                            n,
                            d,
                        ) && is_met(next[j].children, x, hash, n, d));
                    if j < less.len() {
                        let m = if j == i { bs.len() - 1 } else { j };
                        assert(next[j] == bs[m]);
                        assert(is_met(bs, x, hash, n, d));
                    } else {
                        assert(next[j] == b.children[j - less.len()]);
                        assert(is_met(b.children, x, hash, n, d));
                        assert(bs[i] == b);
                        assert(is_met(bs, x, hash, n, d));
                    }
                },
                None => {
                    assert forall|k: int| 0 <= k < bs.len() implies !(
                    #[trigger] bs[k]).hash.is_eq(&hash) && (is_passed(bs[k], hash, n, d)
                        ==> is_unmet(bs[k].children, hash, n, d)) by {
                        if k == i {
                            if passed {
                                assert forall|m: int| 0 <= m < b.children.len() implies !(
                                #[trigger] b.children[m]).hash.is_eq(&hash) && (is_passed(
                                    b.children[m],
                                    hash,
                                    n,
                                    d,
                                ) ==> is_unmet(b.children[m].children, hash, n, d)) by {
                                    assert(next[less.len() + m] == b.children[m]);
                                }
                            }
                        } else if k == bs.len() - 1 {
                            assert(next[i] == bs[k]);
                        } else {
                            assert(next[k] == bs[k]);
                        }
                    }
                },
            }
        }
    }
}

/// Finalizing with ancestors finalizes a node of the tree exactly if a node
/// with the hash of the block is a root or stands below lower ancestors of the
/// block only. Then the node is such a one: its data is returned, its children
/// become the roots, and its number is the best finalized one.
pub proof fn law_ancestors_finalize_reached<H: PartialEq, N: Ord, V, E>(
    t: Forest<H, N, V>,
    hash: H,
    n: N,
    d: spec_fn(H, H) -> Result<bool, E>,
)
    requires
        !(t.best_finalized_number matches Some(best) && n.is_le(&best)),
    ensures
        ({
            let (after, r) = finalization::finalized_with_ancestors(t, hash, n, d);
            &&& r is Ok
            &&& (exists|path: Seq<int>| #[trigger]
                is_reached(t.roots, path, hash, n, d) && model::node_at(
                    t.roots,
                    path,
                ).hash.is_eq(&hash)) ==> exists|path: Seq<int>|
                {
                    let node = model::node_at(t.roots, path);
                    &&& #[trigger] is_reached(t.roots, path, hash, n, d)
                    &&& node.hash.is_eq(&hash)
                    &&& r == Ok::<_, Error<E>>(FinalizationResult::Changed(Some(node.data)))
                    &&& after.roots == node.children
                    &&& after.best_finalized_number == Some(node.number)
                }
            &&& (forall|path: Seq<int>| #[trigger]
                is_reached(t.roots, path, hash, n, d) ==> !model::node_at(
                    t.roots,
                    path,
                ).hash.is_eq(&hash)) ==> {
                &&& r == Ok::<_, Error<E>>(FinalizationResult::<V>::Changed(None)) || r == Ok::<
                    _,
                    Error<E>,
                >(FinalizationResult::<V>::Unchanged)
                &&& after.best_finalized_number == Some(n)
                &&& after.roots.to_multiset() == topmost_all(t.roots, hash, n, d)
            }
        }),
{
    let (left, at, c) = finalization::open_ancestors(t.roots, 0, false, hash, n, d);
    finalizing::lemma_first_with_hash(t.roots, 0, hash);
    lemma_open_ancestors_meets(t.roots, 0, false, hash, n, d);
    if forall|path: Seq<int>| #[trigger]
        is_reached(t.roots, path, hash, n, d) ==> !model::node_at(t.roots, path).hash.is_eq(
            &hash,
        ) {
        lemma_unmet_by_path(t.roots, hash, n, d);
        lemma_open_ancestors_topmost(t.roots, 0, false, hash, n, d);
        match finalization::first_with_hash(t.roots, 0, hash) {
            Some(i) => {
                assert(is_reached(t.roots, seq![i], hash, n, d));
                assert(model::node_at(t.roots, seq![i]) == t.roots[i]);
            },
            None => {},
        }
    }
    if exists|path: Seq<int>| #[trigger]
        is_reached(t.roots, path, hash, n, d) && model::node_at(t.roots, path).hash.is_eq(&hash) {
        let path = choose|path: Seq<int>| #[trigger]
            is_reached(t.roots, path, hash, n, d) && model::node_at(t.roots, path).hash.is_eq(
                &hash,
            );
        lemma_reached_is_not_unmet(t.roots, path, hash, n, d);
        match finalization::first_with_hash(t.roots, 0, hash) {
            Some(i) => {
                assert(is_reached(t.roots, seq![i], hash, n, d));
                assert(model::node_at(t.roots, seq![i]) == t.roots[i]);
            },
            None => {
                let k = at->Some_0;
                let p = lemma_met_by_path(t.roots, left[k], hash, n, d);
                assert(is_reached(t.roots, p, hash, n, d));
            },
        }
    }
}

/// The flag that is carried along changes nothing but the flag that comes out.
proof fn lemma_open_ancestors_flag<H: PartialEq, N: Ord, V, E>(
    bs: Seq<Branch<H, N, V>>,
    i: int,
    hash: H,
    n: N,
    d: spec_fn(H, H) -> Result<bool, E>,
)
    requires
        0 <= i <= bs.len(),
    ensures
        ({
            let with = finalization::open_ancestors(bs, i, true, hash, n, d);
            let without = finalization::open_ancestors(bs, i, false, hash, n, d);
            with.0 == without.0 && with.1 == without.1 && with.2
        }),
    decreases model::walk_all(bs.skip(i)).len(),
{
    if i < bs.len() && !bs[i].hash.is_eq(&hash) {
        finalization::lemma_open_shrinks(bs, i);
        if finalization::is_descendant(bs[i], hash, n, d) {
            lemma_open_ancestors_flag(bs, i + 1, hash, n, d);
        } else if finalization::is_ancestor(bs[i], hash, n, d) {
            lemma_open_ancestors_flag(
                finalization::swap_removed(bs, i) + bs[i].children,
                i,
                hash,
                n,
                d,
            );
        } else {
            lemma_open_ancestors_flag(finalization::swap_removed(bs, i), i, hash, n, d);
        }
    }
}

/// Descendants at the front are passed over.
proof fn lemma_open_ancestors_skips<H: PartialEq, N: Ord, V, E>(
    bs: Seq<Branch<H, N, V>>,
    j: int,
    i: int,
    changed: bool,
    hash: H,
    n: N,
    d: spec_fn(H, H) -> Result<bool, E>,
)
    requires
        0 <= j <= i <= bs.len(),
        forall|k: int|
            j <= k < i ==> !(#[trigger] bs[k]).hash.is_eq(&hash) && bs[k].number.is_gt(&n) && d(
                hash,
                bs[k].hash,
            ) == Ok::<bool, E>(true),
    ensures
        finalization::open_ancestors(bs, j, changed, hash, n, d) == finalization::open_ancestors(
            bs,
            i,
            changed,
            hash,
            n,
            d,
        ),
    decreases i - j,
{
    if j < i {
        assert(!bs[j].hash.is_eq(&hash));
        assert(finalization::is_descendant(bs[j], hash, n, d));
        lemma_open_ancestors_skips(bs, j + 1, i, changed, hash, n, d);
    }
}

/// If all roots are higher and descend from the block, finalizing with
/// ancestors leaves them as they are.
pub proof fn law_ancestors_keep_descendants<H: PartialEq, N: Ord, V, E>(
    t: Forest<H, N, V>,
    hash: H,
    n: N,
    d: spec_fn(H, H) -> Result<bool, E>,
)
    requires
        !(t.best_finalized_number matches Some(best) && n.is_le(&best)),
        forall|k: int|
            0 <= k < t.roots.len() ==> !(#[trigger] t.roots[k]).hash.is_eq(&hash)
                && t.roots[k].number.is_gt(&n) && d(hash, t.roots[k].hash) == Ok::<bool, E>(true),
    ensures
        finalization::finalized_with_ancestors(t, hash, n, d) == (
            Forest { roots: t.roots, best_finalized_number: Some(n) },
            Ok::<_, Error<E>>(FinalizationResult::<V>::Unchanged),
        ),
{
    finalizing::lemma_first_with_hash(t.roots, 0, hash);
    lemma_open_ancestors_skips(t.roots, 0, t.roots.len() as int, false, hash, n, d);
}

/// Finalizing with ancestors can be done in two steps: the first root that is
/// not a higher descendant of the block is taken out first. The last root takes
/// its place, and, if it is a lower ancestor of the block, its children come
/// last.
pub proof fn law_ancestors_step<H: PartialEq, N: Ord, V, E>(
    t: Forest<H, N, V>,
    next: Forest<H, N, V>,
    i: int,
    hash: H,
    n: N,
    d: spec_fn(H, H) -> Result<bool, E>,
)
    requires
        !(t.best_finalized_number matches Some(best) && n.is_le(&best)),
        0 <= i < t.roots.len(),
        forall|k: int| 0 <= k < t.roots.len() ==> !(#[trigger] t.roots[k]).hash.is_eq(&hash),
        forall|k: int| 0 <= k < next.roots.len() ==> !(#[trigger] next.roots[k]).hash.is_eq(&hash),
        forall|k: int|
            0 <= k < i ==> (#[trigger] t.roots[k]).number.is_gt(&n) && d(hash, t.roots[k].hash)
                == Ok::<bool, E>(true),
        !(t.roots[i].number.is_gt(&n) && d(hash, t.roots[i].hash) == Ok::<bool, E>(true)),
        next.best_finalized_number == t.best_finalized_number,
        next.roots == t.roots.update(i, t.roots.last()).drop_last() + (
        if t.roots[i].number.is_lt(&n) && d(t.roots[i].hash, hash) == Ok::<bool, E>(true) {
            t.roots[i].children
        } else {
            Seq::empty()
        }),
    ensures
        ({
            let (after, r) = finalization::finalized_with_ancestors(t, hash, n, d);
            let (after_next, r_next) = finalization::finalized_with_ancestors(next, hash, n, d);
            &&& after == after_next
            &&& r == if r_next == Ok::<_, Error<E>>(FinalizationResult::<V>::Unchanged) {
                Ok::<_, Error<E>>(FinalizationResult::<V>::Changed(None))
            } else {
                r_next
            }
        }),
{
    let less = finalization::swap_removed(t.roots, i);
    finalizing::lemma_first_with_hash(t.roots, 0, hash);
    finalizing::lemma_first_with_hash(next.roots, 0, hash);
    lemma_open_ancestors_skips(t.roots, 0, i, false, hash, n, d);
    assert(!t.roots[i].hash.is_eq(&hash));
    if finalization::is_ancestor(t.roots[i], hash, n, d) {
        assert(next.roots =~= less + t.roots[i].children);
    } else {
        assert(next.roots =~= less);
    }
    assert forall|k: int| 0 <= k < i implies (#[trigger] next.roots[k]).number.is_gt(&n) && d(
        hash,
        next.roots[k].hash,
    ) == Ok::<bool, E>(true) by {
        assert(next.roots[k] == t.roots[k]);
    }
    lemma_open_ancestors_skips(next.roots, 0, i, false, hash, n, d);
    lemma_open_ancestors_flag(next.roots, i, hash, n, d);
    finalization::lemma_open_shrinks(t.roots, i);
    assert(finalization::open_ancestors(t.roots, i, false, hash, n, d)
        == finalization::open_ancestors(next.roots, i, true, hash, n, d));
}

/// Several sequences of branches hold together what each holds.
proof fn lemma_topmost_add<H, N: Ord, V, E>(
    a: Seq<Branch<H, N, V>>,
    b: Seq<Branch<H, N, V>>,
    hash: H,
    n: N,
    d: spec_fn(H, H) -> Result<bool, E>,
)
    ensures
        topmost_all(a + b, hash, n, d) == topmost_all(a, hash, n, d).add(
            topmost_all(b, hash, n, d),
        ),
    decreases b.len(),
{
    let left = topmost_all(a, hash, n, d);
    if b.len() == 0 {
        assert(a + b =~= a);
        assert(left.add(topmost_all(b, hash, n, d)) =~= left);
    } else {
        lemma_topmost_add(a, b.drop_last(), hash, n, d);
        assert((a + b).drop_last() =~= a + b.drop_last());
        assert((a + b).last() == b.last());
        let front = topmost_all(b.drop_last(), hash, n, d);
        let last = topmost(b.last(), hash, n, d);
        assert(left.add(front).add(last) =~= left.add(front.add(last)));
    }
}

/// One branch by itself.
proof fn lemma_topmost_one<H, N: Ord, V, E>(
    b: Branch<H, N, V>,
    hash: H,
    n: N,
    d: spec_fn(H, H) -> Result<bool, E>,
)
    ensures
        topmost_all(seq![b], hash, n, d) == topmost(b, hash, n, d),
{
    let one = seq![b];
    assert(one.drop_last() =~= Seq::empty());
    assert(topmost_all(one.drop_last(), hash, n, d) =~= Multiset::empty());
    assert(topmost_all(one, hash, n, d) =~= topmost(b, hash, n, d));
}

/// One branch less.
proof fn lemma_topmost_removed<H, N: Ord, V, E>(
    bs: Seq<Branch<H, N, V>>,
    i: int,
    hash: H,
    n: N,
    d: spec_fn(H, H) -> Result<bool, E>,
)
    requires
        0 <= i < bs.len(),
    ensures
        topmost_all(bs, hash, n, d) == topmost_all(
            finalization::swap_removed(bs, i),
            hash,
            n,
            d,
        ).add(topmost(bs[i], hash, n, d)),
{
    let front = bs.take(i);
    let one = seq![bs[i]];
    let less = finalization::swap_removed(bs, i);
    let t = |s: Seq<Branch<H, N, V>>| topmost_all(s, hash, n, d);
    lemma_topmost_one(bs[i], hash, n, d);
    if i < bs.len() - 1 {
        let middle = bs.subrange(i + 1, bs.len() - 1);
        let last = seq![bs.last()];
        assert(bs =~= front + one + middle + last);
        assert(less =~= front + last + middle);
        lemma_topmost_add(front, one, hash, n, d);
        lemma_topmost_add(front + one, middle, hash, n, d);
        lemma_topmost_add(front + one + middle, last, hash, n, d);
        lemma_topmost_add(front, last, hash, n, d);
        lemma_topmost_add(front + last, middle, hash, n, d);
        assert(t(front).add(t(one)).add(t(middle)).add(t(last)) =~= t(front).add(t(last)).add(
            t(middle),
        ).add(t(one)));
    } else {
        assert(bs =~= front + one);
        assert(less =~= front);
        lemma_topmost_add(front, one, hash, n, d);
    }
}

/// Branches that all descend from the block are the topmost ones themselves.
proof fn lemma_topmost_descendants<H, N: Ord, V, E>(
    bs: Seq<Branch<H, N, V>>,
    hash: H,
    n: N,
    d: spec_fn(H, H) -> Result<bool, E>,
)
    requires
        forall|k: int|
            0 <= k < bs.len() ==> finalization::is_descendant(#[trigger] bs[k], hash, n, d),
    ensures
        topmost_all(bs, hash, n, d) == bs.to_multiset(),
    decreases bs.len(),
{
    broadcast use vstd::seq_lib::group_to_multiset_ensures;

    if bs.len() == 0 {
        assert(bs.to_multiset() =~= Multiset::empty());
    } else {
        let rest = bs.drop_last();
        assert forall|k: int| 0 <= k < rest.len() implies finalization::is_descendant(
            #[trigger] rest[k],
            hash,
            n,
            d,
        ) by {
            assert(rest[k] == bs[k]);
        }
        lemma_topmost_descendants(rest, hash, n, d);
        assert(finalization::is_descendant(bs[bs.len() - 1], hash, n, d));
        assert(topmost(bs.last(), hash, n, d) == Multiset::singleton(bs.last()));
        assert(rest.push(bs.last()) =~= bs);
        assert(rest.to_multiset().add(Multiset::singleton(bs.last())) =~= bs.to_multiset());
    }
}

/// Opening ancestors of a block that is not there leaves the topmost
/// descendants.
proof fn lemma_open_ancestors_topmost<H: PartialEq, N: Ord, V, E>(
    bs: Seq<Branch<H, N, V>>,
    i: int,
    changed: bool,
    hash: H,
    n: N,
    d: spec_fn(H, H) -> Result<bool, E>,
)
    requires
        0 <= i <= bs.len(),
        is_unmet(bs, hash, n, d),
        forall|k: int| 0 <= k < i ==> finalization::is_descendant(#[trigger] bs[k], hash, n, d),
    ensures
        ({
            let (left, at, c) = finalization::open_ancestors(bs, i, changed, hash, n, d);
            at is None && left.to_multiset() == topmost_all(bs, hash, n, d)
        }),
    decreases model::walk_all(bs.skip(i)).len(),
{
    if i >= bs.len() {
        lemma_topmost_descendants(bs, hash, n, d);
    } else {
        let b = bs[i];
        let less = finalization::swap_removed(bs, i);
        let opened = less + b.children;
        finalization::lemma_open_shrinks(bs, i);
        lemma_topmost_removed(bs, i, hash, n, d);
        assert(!b.hash.is_eq(&hash));
        assert forall|k: int| 0 <= k < less.len() implies !(#[trigger] less[k]).hash.is_eq(&hash)
            && (is_passed(less[k], hash, n, d) ==> is_unmet(less[k].children, hash, n, d)) by {
            let m = if k == i { bs.len() - 1 } else { k };
            assert(less[k] == bs[m]);
        }
        if finalization::is_descendant(b, hash, n, d) {
            lemma_open_ancestors_topmost(bs, i + 1, changed, hash, n, d);
        } else if finalization::is_ancestor(b, hash, n, d) {
            lemma_topmost_add(less, b.children, hash, n, d);
            assert(is_passed(b, hash, n, d));
            assert(is_unmet(b.children, hash, n, d));
            assert forall|k: int| 0 <= k < opened.len() implies !(#[trigger] opened[k]).hash.is_eq(
                &hash,
            ) && (is_passed(opened[k], hash, n, d) ==> is_unmet(
                opened[k].children,
                hash,
                n,
                d,
            )) by {
                if k < less.len() {
                    assert(opened[k] == less[k]);
                } else {
                    assert(opened[k] == b.children[k - less.len()]);
                }
            }
            lemma_open_ancestors_topmost(opened, i, true, hash, n, d);
        } else {
            assert(topmost_all(less, hash, n, d).add(Multiset::empty()) =~= topmost_all(
                less,
                hash,
                n,
                d,
            ));
            lemma_open_ancestors_topmost(less, i, true, hash, n, d);
        }
    }
}

/// What is held by several branches is held by one of them.
proof fn lemma_topmost_from<H, N: Ord, V, E>(
    bs: Seq<Branch<H, N, V>>,
    b: Branch<H, N, V>,
    hash: H,
    n: N,
    d: spec_fn(H, H) -> Result<bool, E>,
) -> (path: Seq<int>)
    requires
        topmost_all(bs, hash, n, d).count(b) > 0,
    ensures
        is_topmost_at(bs, path, hash, n, d),
        model::is_path(bs, path),
        model::node_at(bs, path) == b,
    decreases bs,
{
    let k = bs.len() - 1;
    let last = bs.last();
    if topmost(last, hash, n, d).count(b) > 0 {
        if finalization::is_descendant(last, hash, n, d) {
            assert(b == last);
            seq![k]
        } else {
            let below = lemma_topmost_from(last.children, b, hash, n, d);
            assert(below.push(k).drop_last() =~= below);
            below.push(k)
        }
    } else {
        lemma_topmost_from(bs.drop_last(), b, hash, n, d)
    }
}

/// What is reached by a path is held.
proof fn lemma_topmost_at<H, N: Ord, V, E>(
    bs: Seq<Branch<H, N, V>>,
    path: Seq<int>,
    hash: H,
    n: N,
    d: spec_fn(H, H) -> Result<bool, E>,
)
    requires
        is_topmost_at(bs, path, hash, n, d),
    ensures
        model::is_path(bs, path),
        topmost_all(bs, hash, n, d).count(model::node_at(bs, path)) > 0,
    decreases path.len(),
{
    let k = path.last();
    let one = seq![bs[k]];
    let x = model::node_at(bs, path);
    if path.len() > 1 {
        lemma_topmost_at(bs[k].children, path.drop_last(), hash, n, d);
    }
    assert(topmost(bs[k], hash, n, d).count(x) > 0);
    assert(bs =~= bs.take(k) + one + bs.skip(k + 1));
    lemma_topmost_one(bs[k], hash, n, d);
    lemma_topmost_add(bs.take(k), one, hash, n, d);
    lemma_topmost_add(bs.take(k) + one, bs.skip(k + 1), hash, n, d);
}

/// Finalizing a block that is not in the tree with its ancestors leaves as
/// roots exactly the descendants of the block all of whose ancestors in the
/// tree are ancestors of the block, each as often as it was there.
pub proof fn law_ancestors_leave_topmost<H: PartialEq, N: Ord, V, E>(
    t: Forest<H, N, V>,
    hash: H,
    n: N,
    d: spec_fn(H, H) -> Result<bool, E>,
)
    requires
        searching::absent(t.roots, hash),
        !finalization::reverts(t, n),
    ensures
        ({
            let (after, r) = finalization::finalized_with_ancestors(t, hash, n, d);
            &&& r == Ok::<_, Error<E>>(FinalizationResult::<V>::Changed(None)) || r == Ok::<
                _,
                Error<E>,
            >(FinalizationResult::<V>::Unchanged)
            &&& after.best_finalized_number == Some(n)
            &&& after.roots.to_multiset() == topmost_all(t.roots, hash, n, d)
        }),
{
    assert forall|path: Seq<int>| #[trigger]
        is_reached(t.roots, path, hash, n, d) implies !model::node_at(t.roots, path).hash.is_eq(
        &hash,
    ) by {
        lemma_absent_at(t.roots, path, hash, n, d);
    }
    law_ancestors_finalize_reached(t, hash, n, d);
}

/// A hash that is absent is not that of a node that is reached.
proof fn lemma_absent_at<H: PartialEq, N: Ord, V, E>(
    bs: Seq<Branch<H, N, V>>,
    path: Seq<int>,
    hash: H,
    n: N,
    d: spec_fn(H, H) -> Result<bool, E>,
)
    requires
        searching::absent(bs, hash),
        is_reached(bs, path, hash, n, d),
    ensures
        !model::node_at(bs, path).hash.is_eq(&hash),
    decreases path.len(),
{
    assert(!bs[path.last()].hash.is_eq(&hash));
    if path.len() > 1 {
        lemma_absent_at(bs[path.last()].children, path.drop_last(), hash, n, d);
    }
}

/// A node is a topmost descendant exactly if a path leads to it through
/// ancestors of the block only.
pub proof fn law_topmost_by_path<H, N: Ord, V, E>(
    bs: Seq<Branch<H, N, V>>,
    b: Branch<H, N, V>,
    hash: H,
    n: N,
    d: spec_fn(H, H) -> Result<bool, E>,
)
    ensures
        topmost_all(bs, hash, n, d).count(b) > 0 <==> exists|path: Seq<int>|
            is_topmost_at(bs, path, hash, n, d) && #[trigger] model::is_path(bs, path)
                && model::node_at(bs, path) == b,
{
    if topmost_all(bs, hash, n, d).count(b) > 0 {
        let path = lemma_topmost_from(bs, b, hash, n, d);
        assert(model::is_path(bs, path));
    }
    if exists|path: Seq<int>|
        is_topmost_at(bs, path, hash, n, d) && #[trigger] model::is_path(bs, path)
            && model::node_at(bs, path) == b {
        let path = choose|path: Seq<int>|
            is_topmost_at(bs, path, hash, n, d) && #[trigger] model::is_path(bs, path)
                && model::node_at(bs, path) == b;
        lemma_topmost_at(bs, path, hash, n, d);
    }
}

} // verus!
