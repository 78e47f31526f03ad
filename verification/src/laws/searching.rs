//! What searches find and where imports go, if the client tells the truth
//! about ancestry.

use vstd::multiset::Multiset;
use vstd::prelude::*;
use vstd::std_specs::cmp::{PartialEqIs, PartialOrdIs, PartialOrdSpec};

use crate::contents;
use crate::error::{Error, FindOutcome};
use crate::finalization;
use crate::model;
use crate::model::{Branch, Forest};
use crate::placement;
use crate::placement::Placement;
use crate::search;

verus! {

/// A number that is below another one is neither equal to nor above it.
pub open spec fn strict_numbers<N: Ord>() -> bool {
    forall|a: N, b: N|
        #![trigger a.partial_cmp_spec(&b)]
        a.is_lt(&b) ==> !b.is_lt(&a) && !b.is_le(&a)
}

/// The client takes `b` for an ancestor of the target.
pub open spec fn is_ancestor<H, N, V, E>(
    b: Branch<H, N, V>,
    hash: H,
    d: spec_fn(H, H) -> Result<bool, E>,
) -> bool {
    d(b.hash, hash) == Ok::<bool, E>(true)
}

/// The answers about the target fit the branch: there is an answer about
/// every node, an ancestor of the target is lower than the target, the parent
/// of an ancestor is an ancestor, and of two siblings one is not.
pub open spec fn fits<H, N: Ord, V, E>(
    b: Branch<H, N, V>,
    hash: H,
    number: N,
    d: spec_fn(H, H) -> Result<bool, E>,
) -> bool
    decreases b,
{
    &&& d(b.hash, hash) is Ok
    &&& is_ancestor(b, hash, d) ==> b.number.is_lt(&number)
    &&& !is_ancestor(b, hash, d) ==> forall|i: int|
        0 <= i < b.children.len() ==> !is_ancestor(#[trigger] b.children[i], hash, d)
    &&& fits_all(b.children, hash, number, d)
}

/// The answers about the target fit the branches, of which at most one leads
/// to the target.
pub open spec fn fits_all<H, N: Ord, V, E>(
    bs: Seq<Branch<H, N, V>>,
    hash: H,
    number: N,
    d: spec_fn(H, H) -> Result<bool, E>,
) -> bool
    decreases bs,
{
    &&& forall|i: int| 0 <= i < bs.len() ==> fits(#[trigger] bs[i], hash, number, d)
    &&& forall|i: int, j: int|
        0 <= i < j < bs.len() ==> !(is_ancestor(#[trigger] bs[i], hash, d) && is_ancestor(
            #[trigger] bs[j],
            hash,
            d,
        ))
}

/// `path` leads to an ancestor of the target that passes the predicate.
pub open spec fn is_candidate<H, N, V, E>(
    bs: Seq<Branch<H, N, V>>,
    path: Seq<int>,
    hash: H,
    d: spec_fn(H, H) -> Result<bool, E>,
    q: spec_fn(V) -> bool,
) -> bool {
    &&& model::is_path(bs, path)
    &&& is_ancestor(model::node_at(bs, path), hash, d)
    &&& q(model::node_at(bs, path).data)
}

/// No node at or below a branch is an ancestor of the target if the topmost
/// one is not.
proof fn lemma_no_ancestor<H, N: Ord, V, E>(
    b: Branch<H, N, V>,
    path: Seq<int>,
    hash: H,
    number: N,
    d: spec_fn(H, H) -> Result<bool, E>,
)
    requires
        fits(b, hash, number, d),
        !is_ancestor(b, hash, d),
        model::is_path_from(b, path),
    ensures
        !is_ancestor(model::node_from(b, path), hash, d),
    decreases path.len(),
{
    if path.len() > 0 {
        lemma_no_ancestor(b.children[path.last()], path.drop_last(), hash, number, d);
    }
}

/// A search passes over branches that do not lead to the target.
proof fn lemma_search_skips<H, N: Ord, V, E>(
    bs: Seq<Branch<H, N, V>>,
    i: int,
    k: int,
    hash: H,
    number: N,
    d: spec_fn(H, H) -> Result<bool, E>,
    q: spec_fn(V) -> bool,
)
    requires
        fits_all(bs, hash, number, d),
        strict_numbers::<N>(),
        0 <= i <= k <= bs.len(),
        forall|j: int| i <= j < k ==> !is_ancestor(#[trigger] bs[j], hash, d),
    ensures
        search::search_all(bs, i, hash, number, d, q) == search::search_all(
            bs,
            k,
            hash,
            number,
            d,
            q,
        ),
    decreases bs, k - i,
{
    if i < k {
        lemma_search_deepest(bs[i], hash, number, d, q);
        lemma_search_skips(bs, i + 1, k, hash, number, d, q);
    }
}

/// What a search of one branch finds.
proof fn lemma_search_deepest<H, N: Ord, V, E>(
    b: Branch<H, N, V>,
    hash: H,
    number: N,
    d: spec_fn(H, H) -> Result<bool, E>,
    q: spec_fn(V) -> bool,
)
    requires
        fits(b, hash, number, d),
        strict_numbers::<N>(),
    ensures
        match search::search(b, hash, number, d, q) {
            Ok(FindOutcome::Found(path)) => {
                &&& is_ancestor(b, hash, d)
                &&& model::is_path_from(b, path)
                &&& is_ancestor(model::node_from(b, path), hash, d)
                &&& q(model::node_from(b, path).data)
                &&& forall|p: Seq<int>| #[trigger]
                    model::is_path_from(b, p) && is_ancestor(model::node_from(b, p), hash, d) && q(
                        model::node_from(b, p).data,
                    ) ==> p.len() <= path.len()
            },
            Ok(FindOutcome::Failure(touched)) => {
                &&& touched == is_ancestor(b, hash, d)
                &&& forall|p: Seq<int>| #[trigger]
                    model::is_path_from(b, p) && is_ancestor(model::node_from(b, p), hash, d)
                        ==> !q(model::node_from(b, p).data)
            },
            _ => false,
        },
    decreases b, 0int,
{
    let cs = b.children;
    if !is_ancestor(b, hash, d) {
        lemma_search_skips(cs, 0, cs.len() as int, hash, number, d, q);
        assert forall|p: Seq<int>| #[trigger]
            model::is_path_from(b, p) && is_ancestor(model::node_from(b, p), hash, d) implies !q(
            model::node_from(b, p).data,
        ) by {
            lemma_no_ancestor(b, p, hash, number, d);
        }
    } else {
        assert(!number.is_le(&b.number));
        if exists|k: int| 0 <= k < cs.len() && is_ancestor(#[trigger] cs[k], hash, d) {
            let k = choose|k: int| 0 <= k < cs.len() && is_ancestor(#[trigger] cs[k], hash, d);
            lemma_search_skips(cs, 0, k, hash, number, d, q);
            lemma_search_deepest(cs[k], hash, number, d, q);
            // any other ancestor is at or below the same child
            assert forall|p: Seq<int>| #[trigger]
                model::is_path_from(b, p) && p.len() > 0 && is_ancestor(
                    model::node_from(b, p),
                    hash,
                    d,
                ) implies p.last() == k && model::is_path_from(cs[k], p.drop_last())
                && model::node_from(cs[k], p.drop_last()) == model::node_from(b, p) by {
                if p.last() != k {
                    lemma_no_ancestor(cs[p.last()], p.drop_last(), hash, number, d);
                }
            }
            match search::search(cs[k], hash, number, d, q) {
                Ok(FindOutcome::Found(path)) => {
                    let longer = path.push(k);
                    assert(longer.drop_last() =~= path);
                    assert forall|p: Seq<int>| #[trigger]
                        model::is_path_from(b, p) && is_ancestor(model::node_from(b, p), hash, d)
                            && q(model::node_from(b, p).data) implies p.len() <= longer.len() by {
                        if p.len() > 0 {
                            assert(model::is_path_from(cs[k], p.drop_last()));
                        }
                    }
                },
                _ => {
                    assert forall|p: Seq<int>| #[trigger]
                        model::is_path_from(b, p) && is_ancestor(model::node_from(b, p), hash, d)
                            && q(model::node_from(b, p).data) implies p.len() == 0 by {
                        if p.len() > 0 {
                            assert(model::is_path_from(cs[k], p.drop_last()));
                        }
                    }
                },
            }
        } else {
            lemma_search_skips(cs, 0, cs.len() as int, hash, number, d, q);
            assert forall|p: Seq<int>| #[trigger]
                model::is_path_from(b, p) && is_ancestor(
                    model::node_from(b, p),
                    hash,
                    d,
                ) implies p.len() == 0 by {
                if p.len() > 0 {
                    lemma_no_ancestor(cs[p.last()], p.drop_last(), hash, number, d);
                }
            }
        }
    }
}

/// A search for a root passes over branches that do not lead to the target.
proof fn lemma_find_skips<H, N: Ord, V, E>(
    bs: Seq<Branch<H, N, V>>,
    i: int,
    k: int,
    hash: H,
    number: N,
    d: spec_fn(H, H) -> Result<bool, E>,
    q: spec_fn(V) -> bool,
)
    requires
        fits_all(bs, hash, number, d),
        strict_numbers::<N>(),
        0 <= i <= k <= bs.len(),
        forall|j: int| i <= j < k ==> !is_ancestor(#[trigger] bs[j], hash, d),
    ensures
        search::find(bs, i, hash, number, d, q) == search::find(bs, k, hash, number, d, q),
    decreases k - i,
{
    if i < k {
        lemma_search_deepest(bs[i], hash, number, d, q);
        lemma_find_skips(bs, i + 1, k, hash, number, d, q);
    }
}

/// If the client tells the truth about the target's ancestry, a search finds
/// the deepest ancestor of the target that passes the predicate, and it finds
/// nothing only if no ancestor passes.
pub proof fn law_find_deepest_ancestor<H, N: Ord, V, E>(
    bs: Seq<Branch<H, N, V>>,
    hash: H,
    number: N,
    d: spec_fn(H, H) -> Result<bool, E>,
    q: spec_fn(V) -> bool,
)
    requires
        fits_all(bs, hash, number, d),
        strict_numbers::<N>(),
    ensures
        match search::find(bs, 0, hash, number, d, q) {
            Ok(Some(path)) => {
                &&& is_candidate(bs, path, hash, d, q)
                &&& forall|p: Seq<int>| #[trigger]
                    is_candidate(bs, p, hash, d, q) ==> p.len() <= path.len()
            },
            Ok(None) => forall|p: Seq<int>| !is_candidate(bs, p, hash, d, q),
            Err(_) => false,
        },
{
    let n = bs.len() as int;
    if exists|k: int| 0 <= k < n && is_ancestor(#[trigger] bs[k], hash, d) {
        let k = choose|k: int| 0 <= k < n && is_ancestor(#[trigger] bs[k], hash, d);
        lemma_find_skips(bs, 0, k, hash, number, d, q);
        lemma_find_skips(bs, k + 1, n, hash, number, d, q);
        lemma_search_deepest(bs[k], hash, number, d, q);
        assert(!number.is_lt(&bs[k].number));
        assert forall|p: Seq<int>| #[trigger] is_candidate(bs, p, hash, d, q) implies p.last() == k
            && model::is_path_from(bs[k], p.drop_last()) && model::node_from(
            bs[k],
            p.drop_last(),
        ) == model::node_at(bs, p) by {
            if p.last() != k {
                lemma_no_ancestor(bs[p.last()], p.drop_last(), hash, number, d);
            }
        }
        match search::search(bs[k], hash, number, d, q) {
            Ok(FindOutcome::Found(path)) => {
                assert(path.push(k).drop_last() =~= path);
            },
            _ => {},
        }
    } else {
        lemma_find_skips(bs, 0, n, hash, number, d, q);
        assert forall|p: Seq<int>| !is_candidate(bs, p, hash, d, q) by {
            if is_candidate(bs, p, hash, d, q) {
                lemma_no_ancestor(bs[p.last()], p.drop_last(), hash, number, d);
            }
        }
    }
}

/// No node at or below the branches has the given hash.
pub open spec fn absent<H: PartialEq, N, V>(bs: Seq<Branch<H, N, V>>, hash: H) -> bool
    decreases bs,
{
    forall|i: int|
        0 <= i < bs.len() ==> !(#[trigger] bs[i]).hash.is_eq(&hash) && absent(
            bs[i].children,
            hash,
        )
}

/// No node at or below `b` has the given hash.
pub open spec fn lacks<H: PartialEq, N, V>(b: Branch<H, N, V>, hash: H) -> bool {
    !b.hash.is_eq(&hash) && absent(b.children, hash)
}

/// What a search that every node passes says about where a node goes.
spec fn as_placement<E>(r: Result<FindOutcome<Seq<int>>, Error<E>>) -> Placement<E> {
    match r {
        Ok(FindOutcome::Found(path)) => Placement::Under(path),
        Ok(_) => Placement::Nowhere,
        Err(e) => Placement::Fails(e),
    }
}

/// A node whose hash is new goes where a search finds its deepest ancestor.
proof fn lemma_place_is_search<H: PartialEq, N: Ord, V, E>(
    b: Branch<H, N, V>,
    hash: H,
    number: N,
    d: spec_fn(H, H) -> Result<bool, E>,
)
    requires
        !b.hash.is_eq(&hash),
        absent(b.children, hash),
    ensures
        placement::place(b, hash, number, d) == as_placement(
            search::search(b, hash, number, d, |v: V| true),
        ),
        !(search::search(b, hash, number, d, |v: V| true) matches Ok(FindOutcome::Failure(true))),
        !(search::search(b, hash, number, d, |v: V| true) matches Ok(FindOutcome::Abort)),
    decreases b, 0int,
{
    lemma_place_is_search_all(b.children, 0, hash, number, d);
}

/// A node whose hash is new goes where a search finds its deepest ancestor.
proof fn lemma_place_is_search_all<H: PartialEq, N: Ord, V, E>(
    bs: Seq<Branch<H, N, V>>,
    i: int,
    hash: H,
    number: N,
    d: spec_fn(H, H) -> Result<bool, E>,
)
    requires
        absent(bs, hash),
        0 <= i <= bs.len(),
    ensures
        placement::place_all(bs, i, hash, number, d) == as_placement(
            search::search_all(bs, i, hash, number, d, |v: V| true),
        ),
        !(search::search_all(bs, i, hash, number, d, |v: V| true) matches Ok(
            FindOutcome::Failure(true),
        )),
        !(search::search_all(bs, i, hash, number, d, |v: V| true) matches Ok(FindOutcome::Abort)),
    decreases bs, bs.len() - i,
{
    if i < bs.len() {
        lemma_place_is_search(bs[i], hash, number, d);
        lemma_place_is_search_all(bs, i + 1, hash, number, d);
    }
}

/// If the client tells the truth about the ancestry of a new node, the node
/// goes right below its deepest ancestor in the tree, and it becomes a root
/// only if no node of the tree is an ancestor of it.
pub proof fn law_import_below_deepest_ancestor<H: PartialEq, N: Ord, V, E>(
    bs: Seq<Branch<H, N, V>>,
    hash: H,
    number: N,
    d: spec_fn(H, H) -> Result<bool, E>,
)
    requires
        fits_all(bs, hash, number, d),
        strict_numbers::<N>(),
        absent(bs, hash),
    ensures
        match placement::place_all(bs, 0, hash, number, d) {
            Placement::Under(path) => {
                &&& model::is_path(bs, path)
                &&& is_ancestor(model::node_at(bs, path), hash, d)
                &&& forall|p: Seq<int>| #[trigger]
                    model::is_path(bs, p) && is_ancestor(model::node_at(bs, p), hash, d) ==> p.len()
                        <= path.len()
            },
            Placement::Nowhere => forall|p: Seq<int>| #[trigger]
                model::is_path(bs, p) ==> !is_ancestor(model::node_at(bs, p), hash, d),
            Placement::Fails(_) => false,
        },
{
    let q = |v: V| true;
    let n = bs.len() as int;
    lemma_place_is_search_all(bs, 0, hash, number, d);
    if exists|k: int| 0 <= k < n && is_ancestor(#[trigger] bs[k], hash, d) {
        let k = choose|k: int| 0 <= k < n && is_ancestor(#[trigger] bs[k], hash, d);
        lemma_search_skips(bs, 0, k, hash, number, d, q);
        lemma_search_deepest(bs[k], hash, number, d, q);
        assert(model::is_path_from(bs[k], Seq::empty()));
        assert forall|p: Seq<int>| #[trigger]
            model::is_path(bs, p) && is_ancestor(model::node_at(bs, p), hash, d) implies p.last()
            == k && model::is_path_from(bs[k], p.drop_last()) && model::node_from(
            bs[k],
            p.drop_last(),
        ) == model::node_at(bs, p) by {
            if p.last() != k {
                lemma_no_ancestor(bs[p.last()], p.drop_last(), hash, number, d);
            }
        }
        match search::search(bs[k], hash, number, d, q) {
            Ok(FindOutcome::Found(path)) => {
                assert(path.push(k).drop_last() =~= path);
            },
            _ => {},
        }
    } else {
        lemma_search_skips(bs, 0, n, hash, number, d, q);
        assert forall|p: Seq<int>| #[trigger] model::is_path(bs, p) implies !is_ancestor(
            model::node_at(bs, p),
            hash,
            d,
        ) by {
            lemma_no_ancestor(bs[p.last()], p.drop_last(), hash, number, d);
        }
    }
}

/// The client knows no node at or below `b` as an ancestor of the target.
pub open spec fn quiet<H, N, V, E>(
    b: Branch<H, N, V>,
    hash: H,
    d: spec_fn(H, H) -> Result<bool, E>,
) -> bool
    decreases b,
{
    &&& d(b.hash, hash) == Ok::<bool, E>(false)
    &&& forall|i: int| 0 <= i < b.children.len() ==> quiet(#[trigger] b.children[i], hash, d)
}

/// `path` leads to a node with the given hash, through nodes that are lower
/// than the given number, and nothing off the path is an ancestor of it.
pub open spec fn stands_at<H: PartialEq, N: Ord, V, E>(
    bs: Seq<Branch<H, N, V>>,
    path: Seq<int>,
    hash: H,
    number: N,
    d: spec_fn(H, H) -> Result<bool, E>,
) -> bool
    decreases path.len(),
{
    &&& path.len() > 0
    &&& 0 <= path.last() < bs.len()
    &&& forall|i: int| 0 <= i < bs.len() && i != path.last() ==> quiet(#[trigger] bs[i], hash, d)
    &&& if path.len() == 1 {
        bs[path.last()].hash.is_eq(&hash)
    } else {
        &&& bs[path.last()].number.is_lt(&number)
        &&& stands_at(bs[path.last()].children, path.drop_last(), hash, number, d)
    }
}

/// A node does not go below any branch without an ancestor of it.
proof fn lemma_place_quiet<H: PartialEq, N: Ord, V, E>(
    b: Branch<H, N, V>,
    hash: H,
    number: N,
    d: spec_fn(H, H) -> Result<bool, E>,
)
    requires
        quiet(b, hash, d),
    ensures
        placement::place(b, hash, number, d) == Placement::<E>::Nowhere || placement::place(
            b,
            hash,
            number,
            d,
        ) == Placement::<E>::Fails(Error::Duplicate),
    decreases b, 0int,
{
    lemma_place_quiet_all(b.children, 0, b.children.len() as int, hash, number, d);
}

/// A node does not go below the branches up to the `k`-th if none of them has
/// an ancestor of it.
proof fn lemma_place_quiet_all<H: PartialEq, N: Ord, V, E>(
    bs: Seq<Branch<H, N, V>>,
    i: int,
    k: int,
    hash: H,
    number: N,
    d: spec_fn(H, H) -> Result<bool, E>,
)
    requires
        0 <= i <= k <= bs.len(),
        forall|j: int| i <= j < k ==> quiet(#[trigger] bs[j], hash, d),
    ensures
        placement::place_all(bs, i, hash, number, d) == placement::place_all(
            bs,
            k,
            hash,
            number,
            d,
        ) || placement::place_all(bs, i, hash, number, d) == Placement::<E>::Fails(
            Error::Duplicate,
        ),
    decreases bs, k - i,
{
    if i < k {
        lemma_place_quiet(bs[i], hash, number, d);
        lemma_place_quiet_all(bs, i + 1, k, hash, number, d);
    }
}

/// If the client tells the truth about its ancestry, a node that is in the
/// tree already is not imported again.
pub proof fn law_import_refuses_duplicate<H: PartialEq, N: Ord, V, E>(
    t: Forest<H, N, V>,
    path: Seq<int>,
    hash: H,
    number: N,
    data: V,
    d: spec_fn(H, H) -> Result<bool, E>,
)
    requires
        stands_at(t.roots, path, hash, number, d),
        strict_numbers::<N>(),
        !finalization::reverts(t, number),
    ensures
        placement::imported(t, hash, number, data, d) == (
            t,
            Err::<bool, Error<E>>(Error::Duplicate),
        ),
{
    lemma_place_refuses_duplicate(t.roots, path, hash, number, d);
}

/// There is no place for a node that is in the tree already.
proof fn lemma_place_refuses_duplicate<H: PartialEq, N: Ord, V, E>(
    bs: Seq<Branch<H, N, V>>,
    path: Seq<int>,
    hash: H,
    number: N,
    d: spec_fn(H, H) -> Result<bool, E>,
)
    requires
        stands_at(bs, path, hash, number, d),
        strict_numbers::<N>(),
    ensures
        placement::place_all(bs, 0, hash, number, d) == Placement::<E>::Fails(Error::Duplicate),
    decreases path.len(),
{
    let i = path.last();
    lemma_place_quiet_all(bs, 0, i, hash, number, d);
    if path.len() > 1 {
        assert(!number.is_le(&bs[i].number));
        lemma_place_refuses_duplicate(bs[i].children, path.drop_last(), hash, number, d);
    }
    assert(placement::place(bs[i], hash, number, d) == Placement::<E>::Fails(Error::Duplicate));
}

/// No two of the nodes have the same hash.
pub open spec fn unique_hashes<H: PartialEq, N, V>(m: Multiset<(H, N, V)>) -> bool {
    forall|e: (H, N, V), f: (H, N, V)| #[trigger]
        m.count(e) > 0 && #[trigger] m.count(f) > 0 && e.0.is_eq(&f.0) ==> e == f && m.count(e) == 1
}

/// An import that succeeds adds the new node and nothing else; one that fails
/// leaves the tree as it was.
pub proof fn law_import_adds_node<H: PartialEq, N: Ord, V, E>(
    t: Forest<H, N, V>,
    hash: H,
    number: N,
    data: V,
    d: spec_fn(H, H) -> Result<bool, E>,
)
    ensures
        ({
            let (after, r) = placement::imported(t, hash, number, data, d);
            match r {
                Ok(_) => {
                    &&& contents::contents(after.roots) == contents::contents(t.roots).insert(
                        (hash, number, data),
                    )
                    &&& after.best_finalized_number == t.best_finalized_number
                },
                Err(_) => after == t,
            }
        }),
{
    let node = model::leaf(hash, number, data);
    contents::lemma_contents_leaf(hash, number, data);
    assert(contents::contents(t.roots).add(Multiset::singleton((hash, number, data)))
        =~= contents::contents(t.roots).insert((hash, number, data)));
    if !finalization::reverts(t, number) {
        match placement::place_all(t.roots, 0, hash, number, d) {
            Placement::Under(path) => {
                lemma_place_is_path_all(t.roots, 0, hash, number, d);
                contents::lemma_contents_grafted(t.roots, path, node);
                contents::lemma_contents_rebalanced_all(
                    placement::grafted(t.roots, path, node),
                );
            },
            Placement::Nowhere => {
                contents::lemma_contents_push(t.roots, node);
                contents::lemma_contents_rebalanced_all(t.roots.push(node));
            },
            Placement::Fails(_) => {},
        }
    }
}

/// Where a node goes is in the branch.
proof fn lemma_place_is_path<H: PartialEq, N: Ord, V, E>(
    b: Branch<H, N, V>,
    hash: H,
    number: N,
    d: spec_fn(H, H) -> Result<bool, E>,
)
    ensures
        placement::place(b, hash, number, d) matches Placement::Under(path)
            ==> model::is_path_from(b, path),
    decreases b, 0int,
{
    lemma_place_is_path_all(b.children, 0, hash, number, d);
}

/// Where a node goes is in the branches.
pub proof fn lemma_place_is_path_all<H: PartialEq, N: Ord, V, E>(
    bs: Seq<Branch<H, N, V>>,
    i: int,
    hash: H,
    number: N,
    d: spec_fn(H, H) -> Result<bool, E>,
)
    requires
        0 <= i <= bs.len(),
    ensures
        placement::place_all(bs, i, hash, number, d) matches Placement::Under(path)
            ==> model::is_path(bs, path),
    decreases bs, bs.len() - i,
{
    if i < bs.len() {
        lemma_place_is_path(bs[i], hash, number, d);
        lemma_place_is_path_all(bs, i + 1, hash, number, d);
        if let Placement::Under(path) = placement::place(bs[i], hash, number, d) {
            model::lemma_path_below(bs, i, path);
        }
    }
}

/// If no two nodes of the tree have the same hash, then neither have any two
/// nodes after the import of a node with a hash that is new to the tree.
pub proof fn law_import_keeps_hashes_unique<H: PartialEq, N: Ord, V, E>(
    t: Forest<H, N, V>,
    hash: H,
    number: N,
    data: V,
    d: spec_fn(H, H) -> Result<bool, E>,
)
    requires
        unique_hashes(contents::contents(t.roots)),
        forall|e: (H, N, V)| #[trigger]
            contents::contents(t.roots).count(e) > 0 ==> !e.0.is_eq(&hash) && !hash.is_eq(&e.0),
    ensures
        unique_hashes(contents::contents(placement::imported(t, hash, number, data, d).0.roots)),
{
    law_import_adds_node(t, hash, number, data, d);
}

} // verus!
