//! What finalizing and pruning do, said by numbers, hashes and the client's
//! answers alone.

use vstd::prelude::*;
use vstd::std_specs::cmp::{PartialEqIs, PartialEqSpec, PartialOrdIs};

use crate::balance;
use crate::contents;
use crate::error::{Error, FinalizationResult};
use crate::finalization;
use crate::laws::finalizing;
use crate::laws::progress;
use crate::laws::searching;
use crate::laws::truthful;
use crate::laws::visiting;
use crate::model;
use crate::model::{Branch, Forest};
use crate::search;

verus! {

/// The first root with the hash of the block is finalized: its children become
/// the roots, its number is the best finalized one, and its data is returned.
pub proof fn law_first_root_is_finalized<H: PartialEq, N: Ord, V, E>(
    t: Forest<H, N, V>,
    hash: H,
    number: N,
    d: spec_fn(H, H) -> Result<bool, E>,
    k: int,
)
    requires
        !(t.best_finalized_number matches Some(best) && number.is_le(&best)),
        0 <= k < t.roots.len(),
        t.roots[k].hash.is_eq(&hash),
        forall|j: int| 0 <= j < k ==> !(#[trigger] t.roots[j]).hash.is_eq(&hash),
    ensures
        ({
            let outcome = (
                Forest {
                    roots: t.roots[k].children,
                    best_finalized_number: Some(t.roots[k].number),
                },
                Ok::<_, Error<E>>(FinalizationResult::Changed(Some(t.roots[k].data))),
            );
            &&& finalization::finalized(t, hash, number, d) == outcome
            &&& finalization::finalized_with_ancestors(t, hash, number, d) == outcome
        }),
{
    lemma_first_with_hash_is(t.roots, 0, hash, k);
}

/// The first branch with a hash is the one before which none has it.
pub proof fn lemma_first_with_hash_is<H: PartialEq, N, V>(
    bs: Seq<Branch<H, N, V>>,
    i: int,
    hash: H,
    k: int,
)
    requires
        0 <= i <= k < bs.len(),
        bs[k].hash.is_eq(&hash),
        forall|j: int| i <= j < k ==> !(#[trigger] bs[j]).hash.is_eq(&hash),
    ensures
        finalization::first_with_hash(bs, i, hash) == Some(k),
    decreases k - i,
{
    if i < k {
        assert(!bs[i].hash.is_eq(&hash));
        lemma_first_with_hash_is(bs, i + 1, hash, k);
    }
}

/// No branch has the hash.
pub proof fn lemma_no_hash<H: PartialEq, N, V>(bs: Seq<Branch<H, N, V>>, hash: H)
    requires
        forall|j: int| 0 <= j < bs.len() ==> !(#[trigger] bs[j]).hash.is_eq(&hash),
    ensures
        finalization::first_with_hash(bs, 0, hash) is None,
{
    finalizing::lemma_first_with_hash(bs, 0, hash);
}

/// The first lower root that the client does not clearly deny to be an ancestor
/// of the block stops finalizing it: an ancestor has to be finalized first, and
/// an error of the client is passed on. The tree stays as it was.
pub proof fn law_finalize_stops_at_ancestor<H: PartialEq, N: Ord, V, E>(
    t: Forest<H, N, V>,
    hash: H,
    number: N,
    d: spec_fn(H, H) -> Result<bool, E>,
    k: int,
)
    requires
        !(t.best_finalized_number matches Some(best) && number.is_le(&best)),
        forall|j: int| 0 <= j < t.roots.len() ==> !(#[trigger] t.roots[j]).hash.is_eq(&hash),
        0 <= k < t.roots.len(),
        number.is_gt(&t.roots[k].number),
        d(t.roots[k].hash, hash) != Ok::<bool, E>(false),
        forall|j: int|
            0 <= j < k && number.is_gt(&(#[trigger] t.roots[j]).number) ==> d(t.roots[j].hash, hash)
                == Ok::<bool, E>(false),
    ensures
        finalization::finalized(t, hash, number, d) == (
            t,
            Err::<FinalizationResult<V>, Error<E>>(
                match d(t.roots[k].hash, hash) {
                    Err(e) => Error::Client(e),
                    Ok(_) => Error::UnfinalizedAncestor,
                },
            ),
        ),
{
    lemma_no_hash(t.roots, hash);
    finalizing::lemma_answer(d(t.roots[k].hash, hash));
    lemma_unfinalized_ancestor_is(t.roots, 0, hash, number, d, k);
}

/// Where the search for unfinalized ancestors stops.
proof fn lemma_unfinalized_ancestor_is<H, N: Ord, V, E>(
    bs: Seq<Branch<H, N, V>>,
    i: int,
    hash: H,
    number: N,
    d: spec_fn(H, H) -> Result<bool, E>,
    k: int,
)
    requires
        0 <= i <= k <= bs.len(),
        k < bs.len() ==> number.is_gt(&bs[k].number) && d(bs[k].hash, hash) != Ok::<bool, E>(false),
        forall|j: int|
            i <= j < k && number.is_gt(&(#[trigger] bs[j]).number) ==> d(bs[j].hash, hash) == Ok::<
                bool,
                E,
            >(false),
    ensures
        finalization::unfinalized_ancestor(bs, i, hash, number, d) == if k < bs.len() {
            Some(
                match d(bs[k].hash, hash) {
                    Err(e) => Error::Client(e),
                    Ok(_) => Error::UnfinalizedAncestor,
                },
            )
        } else {
            None
        },
    decreases k - i,
{
    if k < bs.len() {
        finalizing::lemma_answer(d(bs[k].hash, hash));
    }
    if i < k {
        assert(number.is_gt(&bs[i].number) ==> d(bs[i].hash, hash) == Ok::<bool, E>(false));
        lemma_unfinalized_ancestor_is(bs, i + 1, hash, number, d, k);
    }
}

/// If the block is not a root and the client denies that it descends from any
/// lower root, it is finalized: exactly the roots stay, in order, that have a
/// higher number and that the client knows as descendants of the block,
/// whatever lies below them.
pub proof fn law_finalize_keeps_exactly<H: PartialEq, N: Ord, V, E>(
    t: Forest<H, N, V>,
    hash: H,
    number: N,
    d: spec_fn(H, H) -> Result<bool, E>,
)
    requires
        !(t.best_finalized_number matches Some(best) && number.is_le(&best)),
        forall|j: int| 0 <= j < t.roots.len() ==> !(#[trigger] t.roots[j]).hash.is_eq(&hash),
        forall|j: int|
            0 <= j < t.roots.len() && number.is_gt(&(#[trigger] t.roots[j]).number) ==> d(
                t.roots[j].hash,
                hash,
            ) == Ok::<bool, E>(false),
    ensures
        ({
            let (after, r) = finalization::finalized(t, hash, number, d);
            &&& after.best_finalized_number == Some(number)
            &&& after.roots == t.roots.filter(
                |b: Branch<H, N, V>|
                    b.number.is_gt(&number) && d(hash, b.hash) == Ok::<bool, E>(true),
            )
            &&& r == Ok::<_, Error<E>>(
                if after.roots.len() == t.roots.len() {
                    FinalizationResult::<V>::Unchanged
                } else {
                    FinalizationResult::Changed(None)
                },
            )
        }),
{
    lemma_no_hash(t.roots, hash);
    lemma_unfinalized_ancestor_is(t.roots, 0, hash, number, d, t.roots.len() as int);
    let said = |b: Branch<H, N, V>|
        b.number.is_gt(&number) && d(hash, b.hash) == Ok::<bool, E>(true);
    let done = |b: Branch<H, N, V>| finalization::is_descendant(b, hash, number, d);
    assert(said =~= done);
}

/// With a client that tells the truth, every root that descends from the
/// finalized block is still a root afterwards, and no other root is.
pub proof fn law_finalize_keeps_descending_roots<H: PartialEq, N: Ord, V, E>(
    t: Forest<H, N, V>,
    hash: H,
    above: spec_fn(H, H) -> bool,
    number: spec_fn(H) -> N,
)
    requires
        truthful::is_ancestry(above, number),
        progress::mutual_numbers::<N>(),
        truthful::mirrors_all(t.roots, above, number),
        !(t.best_finalized_number matches Some(best) && number(hash).is_le(&best)),
        forall|j: int|
            0 <= j < t.roots.len() ==> !(#[trigger] t.roots[j]).hash.is_eq(&hash) && !above(
                t.roots[j].hash,
                hash,
            ),
    ensures
        ({
            let after = finalization::finalized(
                t,
                hash,
                number(hash),
                truthful::truth::<H, E>(above),
            ).0;
            after.roots == t.roots.filter(|b: Branch<H, N, V>| above(hash, b.hash))
        }),
{
    let d = truthful::truth::<H, E>(above);
    let n = number(hash);
    law_finalize_keeps_exactly(t, hash, n, d);
    let by_answer = |b: Branch<H, N, V>| b.number.is_gt(&n) && d(hash, b.hash) == Ok::<bool, E>(true);
    let by_truth = |b: Branch<H, N, V>| above(hash, b.hash);
    assert forall|i: int| 0 <= i < t.roots.len() implies by_answer(#[trigger] t.roots[i])
        == by_truth(t.roots[i]) by {
        assert(truthful::mirrors(t.roots[i], above, number));
        if above(hash, t.roots[i].hash) {
            assert(n.is_lt(&t.roots[i].number));
        }
    }
    lemma_filter_same(t.roots, by_answer, by_truth);
}

/// Two conditions that agree on all branches keep the same ones.
proof fn lemma_filter_same<A>(s: Seq<A>, f: spec_fn(A) -> bool, g: spec_fn(A) -> bool)
    requires
        forall|i: int| 0 <= i < s.len() ==> f(#[trigger] s[i]) == g(s[i]),
    ensures
        s.filter(f) == s.filter(g),
    decreases s.len(),
{
    reveal(Seq::filter);
    if s.len() > 0 {
        let rest = s.drop_last();
        assert forall|i: int| 0 <= i < rest.len() implies f(#[trigger] rest[i]) == g(rest[i]) by {
            assert(rest[i] == s[i]);
        }
        assert(f(s[s.len() - 1]) == g(s[s.len() - 1]));
        lemma_filter_same(rest, f, g);
    }
}

/// The first child, not higher than the number, about which the client does not
/// clearly say no.
proof fn lemma_overtaken_is<H, N: Ord, V, E>(
    bs: Seq<Branch<H, N, V>>,
    i: int,
    hash: H,
    number: N,
    d: spec_fn(H, H) -> Result<bool, E>,
    k: int,
)
    requires
        0 <= i <= k <= bs.len(),
        k < bs.len() ==> bs[k].number.is_le(&number) && d(bs[k].hash, hash) != Ok::<bool, E>(false),
        forall|j: int|
            i <= j < k && (#[trigger] bs[j]).number.is_le(&number) ==> d(bs[j].hash, hash) == Ok::<
                bool,
                E,
            >(false),
    ensures
        finalization::overtaken(bs, i, hash, number, d) == if k < bs.len() {
            Some(
                match d(bs[k].hash, hash) {
                    Err(e) => Error::Client(e),
                    Ok(_) => Error::UnfinalizedAncestor,
                },
            )
        } else {
            None
        },
    decreases k - i,
{
    if k < bs.len() {
        finalizing::lemma_answer(d(bs[k].hash, hash));
    }
    if i < k {
        assert(bs[i].number.is_le(&number) ==> d(bs[i].hash, hash) == Ok::<bool, E>(false));
        lemma_overtaken_is(bs, i + 1, hash, number, d, k);
    }
}

/// What there is to say about the first node at which the search for a
/// finalized one stops.
pub open spec fn verdict<H: PartialEq, N: Ord, V, E>(
    b: Branch<H, N, V>,
    k: int,
    hash: H,
    d: spec_fn(H, H) -> Result<bool, E>,
) -> Option<Error<E>> {
    if !b.hash.is_eq(&hash) && d(b.hash, hash) is Err {
        Some(Error::Client(d(b.hash, hash)->Err_0))
    } else if 0 <= k < b.children.len() {
        match d(b.children[k].hash, hash) {
            Err(e) => Some(Error::Client(e)),
            Ok(_) => Some(Error::UnfinalizedAncestor),
        }
    } else {
        None
    }
}

/// `b` passes the predicate, and it is the block or is not clearly denied to be
/// an ancestor of it.
pub open spec fn is_concerned<H: PartialEq, N, V, E>(
    b: Branch<H, N, V>,
    hash: H,
    d: spec_fn(H, H) -> Result<bool, E>,
    q: spec_fn(V) -> bool,
) -> bool {
    q(b.data) && (b.hash.is_eq(&hash) || d(b.hash, hash) != Ok::<bool, E>(false))
}

/// The `k`-th child of `b` is the first one that is not higher than the number
/// and not clearly denied to be an ancestor of the block; if `k` is the number
/// of children, there is none.
pub open spec fn is_first_overtaken<H, N: Ord, V, E>(
    b: Branch<H, N, V>,
    k: int,
    hash: H,
    number: N,
    d: spec_fn(H, H) -> Result<bool, E>,
) -> bool {
    &&& 0 <= k <= b.children.len()
    &&& k < b.children.len() ==> b.children[k].number.is_le(&number) && d(b.children[k].hash, hash)
        != Ok::<bool, E>(false)
    &&& forall|j: int|
        0 <= j < k && (#[trigger] b.children[j]).number.is_le(&number) ==> d(
            b.children[j].hash,
            hash,
        ) == Ok::<bool, E>(false)
}

/// There is a first overtaken child, or none.
proof fn lemma_some_overtaken<H, N: Ord, V, E>(
    b: Branch<H, N, V>,
    k: int,
    hash: H,
    number: N,
    d: spec_fn(H, H) -> Result<bool, E>,
) -> (r: int)
    requires
        0 <= k <= b.children.len(),
        forall|j: int|
            0 <= j < k && (#[trigger] b.children[j]).number.is_le(&number) ==> d(
                b.children[j].hash,
                hash,
            ) == Ok::<bool, E>(false),
    ensures
        is_first_overtaken(b, r, hash, number, d),
    decreases b.children.len() - k,
{
    if k < b.children.len() && !(b.children[k].number.is_le(&number) && d(b.children[k].hash, hash)
        != Ok::<bool, E>(false)) {
        lemma_some_overtaken(b, k + 1, hash, number, d)
    } else {
        k
    }
}

/// Whether one branch is finalized, by numbers, hashes and answers.
proof fn lemma_finalizes_is<H: PartialEq, N: Ord, V, E>(
    b: Branch<H, N, V>,
    k: int,
    hash: H,
    number: N,
    d: spec_fn(H, H) -> Result<bool, E>,
    q: spec_fn(V) -> bool,
)
    requires
        is_first_overtaken(b, k, hash, number, d),
    ensures
        !is_concerned(b, hash, d, q) ==> finalization::finalizes(b, hash, number, d, q) == Ok::<
            bool,
            Error<E>,
        >(false),
        is_concerned(b, hash, d, q) ==> finalization::finalizes(b, hash, number, d, q)
            == match verdict::<H, N, V, E>(b, k, hash, d) {
            Some(e) => Err::<bool, Error<E>>(e),
            None => Ok(true),
        },
{
    finalizing::lemma_answer(d(b.hash, hash));
    lemma_overtaken_is(b.children, 0, hash, number, d, k);
}

/// Where the search for a finalized branch stops.
proof fn lemma_first_finalized_is<H: PartialEq, N: Ord, V, E>(
    bs: Seq<Branch<H, N, V>>,
    i: int,
    m: int,
    k: int,
    hash: H,
    number: N,
    d: spec_fn(H, H) -> Result<bool, E>,
    q: spec_fn(V) -> bool,
)
    requires
        0 <= i <= m <= bs.len(),
        forall|j: int| i <= j < m ==> !is_concerned(#[trigger] bs[j], hash, d, q),
        m < bs.len() ==> is_concerned(bs[m], hash, d, q) && is_first_overtaken(
            bs[m],
            k,
            hash,
            number,
            d,
        ),
    ensures
        finalization::first_finalized(bs, i, hash, number, d, q) == if m < bs.len() {
            match verdict::<H, N, V, E>(bs[m], k, hash, d) {
                Some(e) => Err(e),
                None => Ok::<_, Error<E>>(Some(m)),
            }
        } else {
            Ok::<_, Error<E>>(None)
        },
    decreases m - i,
{
    if i < m {
        assert(!is_concerned(bs[i], hash, d, q));
        let c = lemma_some_overtaken(bs[i], 0, hash, number, d);
        lemma_finalizes_is(bs[i], c, hash, number, d, q);
        lemma_first_finalized_is(bs, i + 1, m, k, hash, number, d, q);
    } else if m < bs.len() {
        lemma_finalizes_is(bs[m], k, hash, number, d, q);
    }
}

/// A block by which no root is concerned is finalized without a root: of all
/// roots exactly those stay, in order, that are higher and known as descendants
/// of the block, that have its number and its hash, or that are known as
/// ancestors of it.
pub proof fn law_descendent_without_root<H: PartialEq, N: Ord, V, E>(
    t: Forest<H, N, V>,
    hash: H,
    number: N,
    d: spec_fn(H, H) -> Result<bool, E>,
    q: spec_fn(V) -> bool,
)
    requires
        !(t.best_finalized_number matches Some(best) && number.is_le(&best)),
        forall|j: int|
            0 <= j < t.roots.len() && q((#[trigger] t.roots[j]).data) ==> !t.roots[j].hash.is_eq(
                &hash,
            ) && d(t.roots[j].hash, hash) == Ok::<bool, E>(false),
    ensures
        ({
            let (after, r) = finalization::finalized_with_descendent(t, hash, number, d, q);
            &&& after.best_finalized_number == Some(number)
            &&& after.roots == t.roots.filter(
                |b: Branch<H, N, V>|
                    {
                        ||| b.number.is_gt(&number) && d(hash, b.hash) == Ok::<bool, E>(true)
                        ||| b.number.is_eq(&number) && b.hash.is_eq(&hash)
                        ||| d(b.hash, hash) == Ok::<bool, E>(true)
                    },
            )
            &&& r == Ok::<_, Error<E>>(
                if after.roots.len() == t.roots.len() {
                    FinalizationResult::<V>::Unchanged
                } else {
                    FinalizationResult::Changed(None)
                },
            )
        }),
{
    lemma_first_finalized_is(t.roots, 0, t.roots.len() as int, 0, hash, number, d, q);
    lemma_agrees_is::<H, N, V, E>(hash, number, d);
}

/// The condition for a root to stay when a block is finalized by a descendent.
proof fn lemma_agrees_is<H: PartialEq, N: Ord, V, E>(
    hash: H,
    number: N,
    d: spec_fn(H, H) -> Result<bool, E>,
)
    ensures
        (|b: Branch<H, N, V>|
            {
                ||| b.number.is_gt(&number) && d(hash, b.hash) == Ok::<bool, E>(true)
                ||| b.number.is_eq(&number) && b.hash.is_eq(&hash)
                ||| d(b.hash, hash) == Ok::<bool, E>(true)
            }) == (|b: Branch<H, N, V>| finalization::agrees(b, hash, number, d)),
{
    let said = |b: Branch<H, N, V>|
        {
            ||| b.number.is_gt(&number) && d(hash, b.hash) == Ok::<bool, E>(true)
            ||| b.number.is_eq(&number) && b.hash.is_eq(&hash)
            ||| d(b.hash, hash) == Ok::<bool, E>(true)
        };
    let done = |b: Branch<H, N, V>| finalization::agrees(b, hash, number, d);
    assert(said =~= done);
}

/// The first root that passes the predicate and is the block or an ancestor of
/// it decides. An error of the client about it is passed on. If one of its
/// children, not higher than the block, is an ancestor of the block, that child
/// has to be finalized first. Else the root is finalized and its data returned:
/// of its children exactly those become the roots, in order, that are higher
/// and known as descendants of the block, that have its number and its hash, or
/// that are known as ancestors of it.
pub proof fn law_descendent_finalizes_root<H: PartialEq, N: Ord, V, E>(
    t: Forest<H, N, V>,
    hash: H,
    number: N,
    d: spec_fn(H, H) -> Result<bool, E>,
    q: spec_fn(V) -> bool,
    m: int,
)
    requires
        !(t.best_finalized_number matches Some(best) && number.is_le(&best)),
        0 <= m < t.roots.len(),
        q(t.roots[m].data),
        t.roots[m].hash.is_eq(&hash) || d(t.roots[m].hash, hash) != Ok::<bool, E>(false),
        forall|j: int|
            0 <= j < m && q((#[trigger] t.roots[j]).data) ==> !t.roots[j].hash.is_eq(&hash) && d(
                t.roots[j].hash,
                hash,
            ) == Ok::<bool, E>(false),
    ensures
        ({
            let root = t.roots[m];
            let (after, r) = finalization::finalized_with_descendent(t, hash, number, d, q);
            if !root.hash.is_eq(&hash) && d(root.hash, hash) is Err {
                &&& after == t
                &&& r == Err::<FinalizationResult<V>, _>(Error::Client(d(root.hash, hash)->Err_0))
            } else {
                &&& forall|k: int|
                    0 <= k < root.children.len() && (#[trigger] root.children[k]).number.is_le(
                        &number,
                    ) && d(root.children[k].hash, hash) != Ok::<bool, E>(false) && (forall|j: int|
                        0 <= j < k && (#[trigger] root.children[j]).number.is_le(&number) ==> d(
                            root.children[j].hash,
                            hash,
                        ) == Ok::<bool, E>(false)) ==> after == t && r == Err::<
                        FinalizationResult<V>,
                        Error<E>,
                    >(
                        match d(root.children[k].hash, hash) {
                            Err(e) => Error::Client(e),
                            Ok(_) => Error::UnfinalizedAncestor,
                        },
                    )
                &&& (forall|k: int|
                    0 <= k < root.children.len() && (#[trigger] root.children[k]).number.is_le(
                        &number,
                    ) ==> d(root.children[k].hash, hash) == Ok::<bool, E>(false)) ==> {
                    &&& r == Ok::<_, Error<E>>(FinalizationResult::Changed(Some(root.data)))
                    &&& after.best_finalized_number == Some(number)
                    &&& after.roots == root.children.filter(
                        |b: Branch<H, N, V>|
                            {
                                ||| b.number.is_gt(&number) && d(hash, b.hash) == Ok::<bool, E>(
                                    true,
                                )
                                ||| b.number.is_eq(&number) && b.hash.is_eq(&hash)
                                ||| d(b.hash, hash) == Ok::<bool, E>(true)
                            },
                    )
                }
            }
        }),
{
    let root = t.roots[m];
    let c = lemma_some_overtaken(root, 0, hash, number, d);
    lemma_first_finalized_is(t.roots, 0, m, c, hash, number, d, q);
    lemma_agrees_is::<H, N, V, E>(hash, number, d);
    assert forall|k: int|
        0 <= k < root.children.len() && (#[trigger] root.children[k]).number.is_le(&number) && d(
            root.children[k].hash,
            hash,
        ) != Ok::<bool, E>(false) && (forall|j: int|
            0 <= j < k && (#[trigger] root.children[j]).number.is_le(&number) ==> d(
                root.children[j].hash,
                hash,
            ) == Ok::<bool, E>(false)) implies k == c by {
        if c < k {
            assert(root.children[c].number.is_le(&number));
        }
    }
}

/// The check beforehand finds no node exactly if every node of the tree fails
/// the predicate, or is neither the block nor an ancestor of it, unless the
/// block comes too late.
pub proof fn law_check_finds_none<H: PartialEq, N: Ord, V, E>(
    t: Forest<H, N, V>,
    hash: H,
    number: N,
    d: spec_fn(H, H) -> Result<bool, E>,
    q: spec_fn(V) -> bool,
)
    requires
        !(t.best_finalized_number matches Some(best) && number.is_le(&best)),
    ensures
        finalization::finalizes_any(t, hash, number, d, q) == Ok::<Option<bool>, Error<E>>(None)
            <==> forall|path: Seq<int>| #[trigger]
            model::is_path(t.roots, path) && q(model::node_at(t.roots, path).data)
                ==> !model::node_at(t.roots, path).hash.is_eq(&hash) && d(
                model::node_at(t.roots, path).hash,
                hash,
            ) == Ok::<bool, E>(false),
{
    let nodes = model::walk_all(t.roots);
    visiting::law_iter_visits_all(t.roots);
    if forall|path: Seq<int>| #[trigger]
        model::is_path(t.roots, path) && q(model::node_at(t.roots, path).data)
            ==> !model::node_at(t.roots, path).hash.is_eq(&hash) && d(
            model::node_at(t.roots, path).hash,
            hash,
        ) == Ok::<bool, E>(false) {
        assert forall|j: int| 0 <= j < nodes.len() implies !is_concerned(
            #[trigger] nodes[j],
            hash,
            d,
            q,
        ) by {
            assert(visiting::is_turn(t.roots, j));
        }
        lemma_first_finalized_is(nodes, 0, nodes.len() as int, 0, hash, number, d, q);
    } else {
        let path = choose|path: Seq<int>| #[trigger]
            model::is_path(t.roots, path) && !(q(model::node_at(t.roots, path).data)
                ==> !model::node_at(t.roots, path).hash.is_eq(&hash) && d(
                model::node_at(t.roots, path).hash,
                hash,
            ) == Ok::<bool, E>(false));
        let j = visiting::turn(t.roots, path);
        assert(is_concerned(nodes[j], hash, d, q));
        let m = lemma_first_concerned(nodes, 0, j, hash, d, q);
        let c = lemma_some_overtaken(nodes[m], 0, hash, number, d);
        lemma_first_finalized_is(nodes, 0, m, c, hash, number, d, q);
    }
}

/// The first concerned node up to one that is.
proof fn lemma_first_concerned<H: PartialEq, N, V, E>(
    bs: Seq<Branch<H, N, V>>,
    i: int,
    j: int,
    hash: H,
    d: spec_fn(H, H) -> Result<bool, E>,
    q: spec_fn(V) -> bool,
) -> (m: int)
    requires
        0 <= i <= j < bs.len(),
        is_concerned(bs[j], hash, d, q),
        forall|l: int| 0 <= l < i ==> !is_concerned(#[trigger] bs[l], hash, d, q),
    ensures
        0 <= m <= j,
        is_concerned(bs[m], hash, d, q),
        forall|l: int| 0 <= l < m ==> !is_concerned(#[trigger] bs[l], hash, d, q),
    decreases j - i,
{
    if is_concerned(bs[i], hash, d, q) {
        i
    } else {
        lemma_first_concerned(bs, i + 1, j, hash, d, q)
    }
}

/// The first node in the order of iteration that passes the predicate and is
/// the block or an ancestor of it decides what the check beforehand says. An
/// error of the client about it is passed on. If one of its children, not
/// higher than the block, is an ancestor of the block, the check fails. Else it
/// says whether a root has the hash of that node.
pub proof fn law_check_finds_first<H: PartialEq, N: Ord, V, E>(
    t: Forest<H, N, V>,
    hash: H,
    number: N,
    d: spec_fn(H, H) -> Result<bool, E>,
    q: spec_fn(V) -> bool,
    path: Seq<int>,
)
    requires
        !(t.best_finalized_number matches Some(best) && number.is_le(&best)),
        model::is_path(t.roots, path),
        q(model::node_at(t.roots, path).data),
        model::node_at(t.roots, path).hash.is_eq(&hash) || d(
            model::node_at(t.roots, path).hash,
            hash,
        ) != Ok::<bool, E>(false),
        forall|p: Seq<int>| #[trigger]
            model::is_path(t.roots, p) && visiting::turn(t.roots, p) < visiting::turn(t.roots, path)
                && q(model::node_at(t.roots, p).data) ==> !model::node_at(t.roots, p).hash.is_eq(
                &hash,
            ) && d(model::node_at(t.roots, p).hash, hash) == Ok::<bool, E>(false),
    ensures
        ({
            let node = model::node_at(t.roots, path);
            let r = finalization::finalizes_any(t, hash, number, d, q);
            if !node.hash.is_eq(&hash) && d(node.hash, hash) is Err {
                r == Err::<Option<bool>, _>(Error::Client(d(node.hash, hash)->Err_0))
            } else {
                &&& forall|k: int|
                    0 <= k < node.children.len() && (#[trigger] node.children[k]).number.is_le(
                        &number,
                    ) && d(node.children[k].hash, hash) != Ok::<bool, E>(false) && (forall|j: int|
                        0 <= j < k && (#[trigger] node.children[j]).number.is_le(&number) ==> d(
                            node.children[j].hash,
                            hash,
                        ) == Ok::<bool, E>(false)) ==> r == Err::<Option<bool>, Error<E>>(
                        match d(node.children[k].hash, hash) {
                            Err(e) => Error::Client(e),
                            Ok(_) => Error::UnfinalizedAncestor,
                        },
                    )
                &&& (forall|k: int|
                    0 <= k < node.children.len() && (#[trigger] node.children[k]).number.is_le(
                        &number,
                    ) ==> d(node.children[k].hash, hash) == Ok::<bool, E>(false)) ==> r == Ok::<
                    _,
                    Error<E>,
                >(
                    Some(
                        exists|i: int|
                            0 <= i < t.roots.len() && (#[trigger] t.roots[i]).hash.is_eq(
                                &node.hash,
                            ),
                    ),
                )
            }
        }),
{
    let nodes = model::walk_all(t.roots);
    let node = model::node_at(t.roots, path);
    let m = visiting::turn(t.roots, path);
    visiting::law_iter_visits_all(t.roots);
    assert forall|j: int| 0 <= j < m implies !is_concerned(#[trigger] nodes[j], hash, d, q) by {
        assert(visiting::is_turn(t.roots, j));
    }
    let c = lemma_some_overtaken(node, 0, hash, number, d);
    lemma_first_finalized_is(nodes, 0, m, c, hash, number, d, q);
    assert forall|k: int|
        0 <= k < node.children.len() && (#[trigger] node.children[k]).number.is_le(&number) && d(
            node.children[k].hash,
            hash,
        ) != Ok::<bool, E>(false) && (forall|j: int|
            0 <= j < k && (#[trigger] node.children[j]).number.is_le(&number) ==> d(
                node.children[j].hash,
                hash,
            ) == Ok::<bool, E>(false)) implies k == c by {
        if c < k {
            assert(node.children[c].number.is_le(&number));
        }
    }
}

/// Whatever the check beforehand reports as finalized is a node of the tree
/// that passes the predicate, is the block or an ancestor of it, and has no
/// child, not higher than the block, that is an ancestor of it; and the report
/// tells whether that node has the hash of a root.
pub proof fn law_check_is_founded<H: PartialEq, N: Ord, V, E>(
    t: Forest<H, N, V>,
    hash: H,
    number: N,
    d: spec_fn(H, H) -> Result<bool, E>,
    q: spec_fn(V) -> bool,
    is_root: bool,
)
    requires
        finalization::finalizes_any(t, hash, number, d, q) == Ok::<_, Error<E>>(Some(is_root)),
    ensures
        exists|path: Seq<int>|
            {
                let node = model::node_at(t.roots, path);
                &&& #[trigger] model::is_path(t.roots, path)
                &&& q(node.data)
                &&& node.hash.is_eq(&hash) || d(node.hash, hash) == Ok::<bool, E>(true)
                &&& forall|k: int|
                    0 <= k < node.children.len() && (#[trigger] node.children[k]).number.is_le(
                        &number,
                    ) ==> d(node.children[k].hash, hash) == Ok::<bool, E>(false)
                &&& is_root == (exists|i: int|
                    0 <= i < t.roots.len() && (#[trigger] t.roots[i]).hash.is_eq(&node.hash))
            },
{
    let nodes = model::walk_all(t.roots);
    visiting::law_iter_visits_all(t.roots);
    finalizing::lemma_first_finalized(nodes, 0, hash, number, d, q);
    let i = finalization::first_finalized(nodes, 0, hash, number, d, q)->Ok_0->Some_0;
    assert(visiting::is_turn(t.roots, i));
    let path = choose|path: Seq<int>| #[trigger]
        model::is_path(t.roots, path) && visiting::turn(t.roots, path) == i;
    let node = nodes[i];
    let c = lemma_some_overtaken(node, 0, hash, number, d);
    lemma_finalizes_is(node, c, hash, number, d, q);
    finalizing::lemma_answer(d(node.hash, hash));
    assert(model::node_at(t.roots, path) == node);
}

/// Pruning keeps the way to the target: if a child of the node that is found is
/// the target, or a lower ancestor of it, the first such child stays below the
/// new root with all that is below it, and it is the only child. If there is no
/// such child, the new root has none. The node itself is found as a search
/// finds it.
pub proof fn law_prune_keeps_way<H: PartialEq, N: Ord, V, E>(
    t: Forest<H, N, V>,
    hash: H,
    number: N,
    d: spec_fn(H, H) -> Result<bool, E>,
    q: spec_fn(V) -> bool,
    path: Seq<int>,
)
    requires
        search::find(t.roots, 0, hash, number, d, q) == Ok::<_, Error<E>>(Some(path)),
    ensures
        ({
            let node = model::node_at(t.roots, path);
            let (after, r) = finalization::pruned(t, hash, number, d, q);
            let root = after.roots[0];
            &&& r is Ok
            &&& after.roots.len() == 1
            &&& after.best_finalized_number == t.best_finalized_number
            &&& root.hash == node.hash && root.number == node.number && root.data == node.data
            &&& forall|k: int|
                0 <= k < node.children.len() && ((#[trigger] node.children[k]).number.is_eq(&number)
                    && node.children[k].hash.is_eq(&hash) || node.children[k].number.is_lt(&number)
                    && d(node.children[k].hash, hash) == Ok::<bool, E>(true)) && (forall|j: int|
                    0 <= j < k ==> !((#[trigger] node.children[j]).number.is_eq(&number)
                        && node.children[j].hash.is_eq(&hash)) && !(node.children[j].number.is_lt(
                        &number,
                    ) && d(node.children[j].hash, hash) == Ok::<bool, E>(true))) ==> {
                    let child = node.children[k];
                    &&& root.children.len() == 1
                    &&& root.children[0].hash == child.hash
                    &&& root.children[0].number == child.number
                    &&& root.children[0].data == child.data
                    &&& root.children[0].children == balance::rebalanced_all(child.children)
                    &&& contents::contents(root.children[0].children) == contents::contents(
                        child.children,
                    )
                }
            &&& (forall|k: int|
                0 <= k < node.children.len() ==> !((#[trigger] node.children[k]).number.is_eq(
                    &number,
                ) && node.children[k].hash.is_eq(&hash)) && !(node.children[k].number.is_lt(&number)
                    && d(node.children[k].hash, hash) == Ok::<bool, E>(true)))
                ==> root.children.len() == 0
        }),
{
    let node = model::node_at(t.roots, path);
    let heir = finalization::heir(node.children, 0, hash, number, d);
    finalizing::lemma_heir(node.children, 0, hash, number, d);
    let kept = finalization::inherited(node, heir);
    let root = balance::rebalanced(kept);
    match heir {
        Some(i) => {
            balance::lemma_rebalanced_one(node.children[i]);
            contents::lemma_contents_rebalanced_all(node.children[i].children);
            lemma_heir_is_first(node.children, 0, hash, number, d);
            assert(finalization::leads_to(node.children[i], hash, number, d));
        },
        None => {
            lemma_no_heir(node.children, 0, hash, number, d);
            let none = Seq::<Branch<H, N, V>>::empty();
            assert(balance::rebalanced_each(none) =~= none);
            assert(balance::ordered(none) =~= none);
        },
    }
}

/// With a client that tells the truth, pruning to a target in the tree keeps
/// the whole line of the target from the new root on: the new root, all nodes
/// between it and the target, the target, and everything below the target.
pub proof fn law_prune_keeps_target<H: PartialEq, N: Ord, V, E>(
    t: Forest<H, N, V>,
    hash: H,
    q: spec_fn(V) -> bool,
    above: spec_fn(H, H) -> bool,
    number: spec_fn(H) -> N,
    path: Seq<int>,
    way: Seq<int>,
    p: Seq<int>,
)
    requires
        truthful::is_ancestry(above, number),
        truthful::exact_hashes::<H>(),
        forall|n: N| #![trigger n.eq_spec(&n)] n.is_eq(&n),
        searching::strict_numbers::<N>(),
        truthful::mirrors_all(t.roots, above, number),
        search::find(t.roots, 0, hash, number(hash), truthful::truth::<H, E>(above), q) == Ok::<
            _,
            Error<E>,
        >(Some(path)),
        ({
            let root = model::node_at(t.roots, path);
            let node = model::node_from(root, p);
            &&& model::is_path_from(root, way)
            &&& model::node_from(root, way).hash == hash
            &&& model::is_path_from(root, p)
            &&& node.hash == root.hash || node.hash == hash || above(node.hash, hash) || above(
                hash,
                node.hash,
            )
        }),
    ensures
        ({
            let node = model::node_from(model::node_at(t.roots, path), p);
            let after = finalization::pruned(
                t,
                hash,
                number(hash),
                truthful::truth::<H, E>(above),
                q,
            ).0;
            contents::contents(after.roots).count((node.hash, node.number, node.data)) > 0
        }),
{
    let d = truthful::truth::<H, E>(above);
    let n = number(hash);
    let root = model::node_at(t.roots, path);
    let node = model::node_from(root, p);
    let after = finalization::pruned(t, hash, n, d, q).0;
    finalizing::law_find_is_in_tree(t.roots, hash, n, d, q);
    law_prune_keeps_way(t, hash, n, d, q, path);
    let kept = after.roots[0];
    assert(after.roots =~= seq![kept]);
    contents::lemma_contents_one(kept);
    assert(truthful::mirrors(t.roots[path.last()], above, number));
    truthful::lemma_below(t.roots[path.last()], path.drop_last(), above, number);
    assert(truthful::mirrors(root, above, number));
    truthful::lemma_below(root, p, above, number);
    if p.len() > 0 {
        let k = p.last();
        let child = root.children[k];
        assert(truthful::mirrors(child, above, number));
        truthful::lemma_below(child, p.drop_last(), above, number);
        assert(child.hash == node.hash || above(child.hash, node.hash));
        truthful::lemma_below(root, way, above, number);
        truthful::law_find_deepest::<H, N, V, E>(t.roots, hash, q, above, number);
        let c = root.children[way.last()];
        assert(truthful::mirrors(c, above, number));
        truthful::lemma_below(c, way.drop_last(), above, number);
        assert(c.hash == hash || above(c.hash, hash));
        if k != way.last() {
            truthful::lemma_siblings(root.children, k, way.last(), above, number);
        }
        assert(k == way.last());
        assert forall|j: int| 0 <= j < k implies !((#[trigger] root.children[j]).number.is_eq(&n)
            && root.children[j].hash.is_eq(&hash)) && !(root.children[j].number.is_lt(&n) && d(
            root.children[j].hash,
            hash,
        ) == Ok::<bool, E>(true)) by {
            let other = root.children[j];
            truthful::lemma_siblings(root.children, k, j, above, number);
            assert(truthful::mirrors(other, above, number));
            assert(other.hash.is_eq(&hash) == (other.hash == hash));
        }
        assert(child.number.is_eq(&n) && child.hash.is_eq(&hash) || child.number.is_lt(&n) && d(
            child.hash,
            hash,
        ) == Ok::<bool, E>(true)) by {
            assert(child.hash.is_eq(&hash) == (child.hash == hash));
            assert(n.is_eq(&n));
        }
        assert(kept.children =~= seq![kept.children[0]]);
        contents::lemma_contents_one(kept.children[0]);
        let below = p.drop_last();
        if below.len() > 0 {
            contents::lemma_contents_cut(child.children, below);
        }
    }
}

/// Before the child that stays none leads to the target.
proof fn lemma_heir_is_first<H: PartialEq, N: Ord, V, E>(
    bs: Seq<Branch<H, N, V>>,
    i: int,
    hash: H,
    number: N,
    d: spec_fn(H, H) -> Result<bool, E>,
)
    requires
        0 <= i <= bs.len(),
    ensures
        finalization::heir(bs, i, hash, number, d) matches Some(k) ==> forall|j: int|
            i <= j < k ==> !((#[trigger] bs[j]).number.is_eq(&number) && bs[j].hash.is_eq(&hash))
                && !(bs[j].number.is_lt(&number) && d(bs[j].hash, hash) == Ok::<bool, E>(true)),
    decreases bs.len() - i,
{
    if i < bs.len() && !finalization::leads_to(bs[i], hash, number, d) {
        lemma_heir_is_first(bs, i + 1, hash, number, d);
    }
}

/// If no child stays, none leads to the target.
proof fn lemma_no_heir<H: PartialEq, N: Ord, V, E>(
    bs: Seq<Branch<H, N, V>>,
    i: int,
    hash: H,
    number: N,
    d: spec_fn(H, H) -> Result<bool, E>,
)
    requires
        0 <= i <= bs.len(),
        finalization::heir(bs, i, hash, number, d) is None,
    ensures
        forall|j: int|
            i <= j < bs.len() ==> !((#[trigger] bs[j]).number.is_eq(&number) && bs[j].hash.is_eq(
                &hash,
            )) && !(bs[j].number.is_lt(&number) && d(bs[j].hash, hash) == Ok::<bool, E>(true)),
    decreases bs.len() - i,
{
    if i < bs.len() {
        lemma_no_heir(bs, i + 1, hash, number, d);
    }
}

/// Where a search finds nothing, pruning changes nothing and returns nothing;
/// where the client fails in a search, pruning fails in the same way.
pub proof fn law_prune_without_match<H: PartialEq, N: Ord, V, E>(
    t: Forest<H, N, V>,
    hash: H,
    number: N,
    d: spec_fn(H, H) -> Result<bool, E>,
    q: spec_fn(V) -> bool,
)
    ensures
        match search::find(t.roots, 0, hash, number, d, q) {
            Ok(Some(_)) => true,
            Ok(None) => finalization::pruned(t, hash, number, d, q) == (
                t,
                Ok::<Seq<(H, N, V)>, Error<E>>(Seq::empty()),
            ),
            Err(e) => finalization::pruned(t, hash, number, d, q) == (
                t,
                Err::<Seq<(H, N, V)>, Error<E>>(e),
            ),
        },
{
}

} // verus!
