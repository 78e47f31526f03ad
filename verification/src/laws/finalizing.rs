//! Nodes are finalized in order, and finalizing or pruning never brings up a
//! node that was not there.

use vstd::multiset::Multiset;
use vstd::prelude::*;
use vstd::std_specs::cmp::{PartialEqIs, PartialOrdIs};

use crate::balance;
use crate::contents;
use crate::error::{Error, FinalizationResult, FindOutcome};
use crate::finalization;
use crate::model;
use crate::model::{Branch, Forest};
use crate::placement;
use crate::search;

verus! {

/// Nothing at or below the last finalized number can be imported or finalized:
/// every attempt is refused and leaves the tree as it was.
pub proof fn law_no_revert<H: PartialEq, N: Ord, V, E>(
    t: Forest<H, N, V>,
    hash: H,
    number: N,
    data: V,
    d: spec_fn(H, H) -> Result<bool, E>,
    q: spec_fn(V) -> bool,
)
    requires
        t.best_finalized_number matches Some(best) && number.is_le(&best),
    ensures
        placement::imported(t, hash, number, data, d) == (
            t,
            Err::<bool, Error<E>>(Error::Revert),
        ),
        finalization::finalized(t, hash, number, d) == (
            t,
            Err::<FinalizationResult<V>, Error<E>>(Error::Revert),
        ),
        finalization::finalized_with_ancestors(t, hash, number, d) == (
            t,
            Err::<FinalizationResult<V>, Error<E>>(Error::Revert),
        ),
        finalization::finalized_with_descendent(t, hash, number, d, q) == (
            t,
            Err::<FinalizationResult<V>, Error<E>>(Error::Revert),
        ),
        finalization::finalizes_any(t, hash, number, d, q) == Err::<Option<bool>, Error<E>>(
            Error::Revert,
        ),
{
}

/// Once a node has been finalized, the tree is finalized up to that node's
/// number: the number of the node of the tree whose data is returned, or else
/// the given one. Finalizing by a descendent goes by the given number always.
/// A failed attempt leaves the tree as it was.
pub proof fn law_finalize_moves_on<H: PartialEq, N: Ord, V, E>(
    t: Forest<H, N, V>,
    hash: H,
    number: N,
    d: spec_fn(H, H) -> Result<bool, E>,
    q: spec_fn(V) -> bool,
)
    ensures
        ({
            let (after, r) = finalization::finalized(t, hash, number, d);
            match r {
                Ok(_) => after.best_finalized_number == match finalization::first_with_hash(
                    t.roots,
                    0,
                    hash,
                ) {
                    Some(i) => Some(t.roots[i].number),
                    None => Some(number),
                },
                Err(_) => after == t,
            }
        }),
        ({
            let (after, r) = finalization::finalized_with_ancestors(t, hash, number, d);
            match r {
                Ok(FinalizationResult::Changed(Some(data))) => exists|e: (H, N, V)|
                    {
                        &&& #[trigger] contents::contents(t.roots).count(e) > 0
                        &&& e.0.is_eq(&hash)
                        &&& e.2 == data
                        &&& after.best_finalized_number == Some(e.1)
                    },
                Ok(_) => after.best_finalized_number == Some(number),
                Err(_) => after == t,
            }
        }),
        ({
            let (after, r) = finalization::finalized_with_descendent(t, hash, number, d, q);
            match r {
                Ok(_) => after.best_finalized_number == Some(number),
                Err(_) => after == t,
            }
        }),
{
    let held = contents::contents(t.roots);
    lemma_first_with_hash(t.roots, 0, hash);
    lemma_open_ancestors(t.roots, 0, false, hash, number, d);
    let (left, at, changed) = finalization::open_ancestors(t.roots, 0, false, hash, number, d);
    match finalization::first_with_hash(t.roots, 0, hash) {
        Some(i) => {
            contents::lemma_contents_remove(t.roots, i);
            assert(held.count(model::entry(t.roots[i])) > 0);
        },
        None => {
            if let Some(i) = at {
                contents::lemma_contents_remove(left, i);
                assert(contents::contents(left).count(model::entry(left[i])) > 0);
                assert(held.count(model::entry(left[i])) > 0);
            }
        },
    }
}

/// The client's answer is one of two, or an error.
pub proof fn lemma_answer<E>(r: Result<bool, E>)
    ensures
        r == Ok::<bool, E>(true) || r == Ok::<bool, E>(false) || r is Err,
{
    match r {
        Ok(true) => {},
        Ok(false) => {},
        Err(_) => {},
    }
}

/// A root in front of which the search for unfinalized ancestors stops.
proof fn lemma_unfinalized_ancestor<H, N: Ord, V, E>(
    bs: Seq<Branch<H, N, V>>,
    i: int,
    hash: H,
    number: N,
    d: spec_fn(H, H) -> Result<bool, E>,
)
    requires
        0 <= i <= bs.len(),
    ensures
        finalization::unfinalized_ancestor(bs, i, hash, number, d) is None ==> forall|k: int|
            i <= k < bs.len() && number.is_gt(&(#[trigger] bs[k]).number) ==> d(bs[k].hash, hash)
                == Ok::<bool, E>(false),
        (forall|k: int| i <= k < bs.len() ==> d((#[trigger] bs[k]).hash, hash) is Ok)
            && finalization::unfinalized_ancestor(bs, i, hash, number, d) is Some
            ==> finalization::unfinalized_ancestor(bs, i, hash, number, d) == Some(
            Error::<E>::UnfinalizedAncestor,
        ),
    decreases bs.len() - i,
{
    if i < bs.len() {
        lemma_unfinalized_ancestor(bs, i + 1, hash, number, d);
        lemma_answer(d(bs[i].hash, hash));
    }
}

/// A node below a root is not finalized before that root: unless the node is
/// a root itself, finalizing succeeds only if no lower root is an ancestor of
/// it.
pub proof fn law_finalize_in_order<H: PartialEq, N: Ord, V, E>(
    t: Forest<H, N, V>,
    hash: H,
    number: N,
    d: spec_fn(H, H) -> Result<bool, E>,
    k: int,
)
    requires
        finalization::first_with_hash(t.roots, 0, hash) is None,
        0 <= k < t.roots.len(),
        number.is_gt(&t.roots[k].number),
        d(t.roots[k].hash, hash) == Ok::<bool, E>(true),
    ensures
        finalization::finalized(t, hash, number, d).0 == t,
        finalization::finalized(t, hash, number, d).1 is Err,
        !finalization::reverts(t, number) && (forall|j: int|
            0 <= j < t.roots.len() ==> d((#[trigger] t.roots[j]).hash, hash) is Ok)
            ==> finalization::finalized(t, hash, number, d).1 == Err::<
            FinalizationResult<V>,
            Error<E>,
        >(Error::UnfinalizedAncestor),
{
    lemma_unfinalized_ancestor(t.roots, 0, hash, number, d);
}

/// What a filter keeps, and what it drops.
pub proof fn lemma_filter_members<A>(s: Seq<A>, keep: spec_fn(A) -> bool)
    ensures
        forall|i: int| 0 <= i < s.filter(keep).len() ==> keep(#[trigger] s.filter(keep)[i]),
        forall|i: int|
            0 <= i < s.filter(keep).len() ==> s.contains(#[trigger] s.filter(keep)[i]),
        forall|i: int|
            0 <= i < s.len() && keep(#[trigger] s[i]) ==> s.filter(keep).contains(s[i]),
        s.filter(keep).len() <= s.len(),
        s.filter(keep).len() == s.len() ==> s.filter(keep) == s,
    decreases s.len(),
{
    reveal(Seq::filter);
    broadcast use vstd::seq_lib::group_filter_ensures;

    if s.len() > 0 {
        let rest = s.drop_last();
        lemma_filter_members(rest, keep);
        assert forall|i: int| 0 <= i < s.filter(keep).len() implies s.contains(
            #[trigger] s.filter(keep)[i],
        ) by {
            let f = rest.filter(keep);
            if i < f.len() {
                assert(f[i] == s.filter(keep)[i]);
                assert(rest.contains(f[i]));
                let k = choose|k: int| 0 <= k < rest.len() && rest[k] == f[i];
                assert(s[k] == f[i]);
            } else {
                assert(s[s.len() - 1] == s.filter(keep)[i]);
            }
        }
        if s.filter(keep).len() == s.len() {
            assert(rest.push(s.last()) =~= s);
        }
    }
}

/// Finalizing a node that is not a root keeps exactly the roots that descend
/// from the node.
pub proof fn law_finalize_keeps_descendants<H: PartialEq, N: Ord, V, E>(
    t: Forest<H, N, V>,
    hash: H,
    number: N,
    d: spec_fn(H, H) -> Result<bool, E>,
)
    requires
        finalization::first_with_hash(t.roots, 0, hash) is None,
        finalization::finalized(t, hash, number, d).1 is Ok,
    ensures
        ({
            let after = finalization::finalized(t, hash, number, d).0;
            &&& forall|i: int|
                0 <= i < after.roots.len() ==> finalization::is_descendant(
                    #[trigger] after.roots[i],
                    hash,
                    number,
                    d,
                ) && t.roots.contains(after.roots[i])
            &&& forall|i: int|
                0 <= i < t.roots.len() && finalization::is_descendant(
                    #[trigger] t.roots[i],
                    hash,
                    number,
                    d,
                ) ==> after.roots.contains(t.roots[i])
        }),
{
    let keep = |b: Branch<H, N, V>| finalization::is_descendant(b, hash, number, d);
    lemma_filter_members(t.roots, keep);
    assert(finalization::finalized(t, hash, number, d).0.roots == t.roots.filter(keep));
    assert forall|i: int|
        0 <= i < t.roots.len() && finalization::is_descendant(
            #[trigger] t.roots[i],
            hash,
            number,
            d,
        ) implies t.roots.filter(keep).contains(t.roots[i]) by {
        assert(keep(t.roots[i]));
    }
}

/// The tree reports that it has not changed exactly if no node was finalized
/// and all roots are still there. Where it reports a change without a
/// finalized node, there are fewer roots, or, if ancestors are finalized too,
/// fewer nodes.
pub proof fn law_unchanged_keeps_roots<H: PartialEq, N: Ord, V, E>(
    t: Forest<H, N, V>,
    hash: H,
    number: N,
    d: spec_fn(H, H) -> Result<bool, E>,
    q: spec_fn(V) -> bool,
)
    ensures
        ({
            let (after, r) = finalization::finalized(t, hash, number, d);
            &&& r == Ok::<_, Error<E>>(FinalizationResult::<V>::Unchanged) ==> after.roots
                == t.roots
            &&& r == Ok::<_, Error<E>>(FinalizationResult::<V>::Changed(None)) ==> after.roots.len()
                < t.roots.len()
        }),
        ({
            let (after, r) = finalization::finalized_with_ancestors(t, hash, number, d);
            &&& r == Ok::<_, Error<E>>(FinalizationResult::<V>::Unchanged) ==> after.roots
                == t.roots
            &&& r == Ok::<_, Error<E>>(FinalizationResult::<V>::Changed(None)) ==> model::walk_all(
                after.roots,
            ).len() < model::walk_all(t.roots).len()
        }),
        ({
            let (after, r) = finalization::finalized_with_descendent(t, hash, number, d, q);
            &&& r == Ok::<_, Error<E>>(FinalizationResult::<V>::Unchanged) ==> after.roots
                == t.roots
            &&& r == Ok::<_, Error<E>>(FinalizationResult::<V>::Changed(None)) ==> after.roots.len()
                < t.roots.len()
        }),
{
    lemma_filter_members(
        t.roots,
        |b: Branch<H, N, V>| finalization::is_descendant(b, hash, number, d),
    );
    lemma_filter_members(t.roots, |b: Branch<H, N, V>| finalization::agrees(b, hash, number, d));
    lemma_open_ancestors(t.roots, 0, false, hash, number, d);
}

/// What holds of the branches that are left when ancestors are opened.
pub proof fn lemma_open_ancestors<H: PartialEq, N: Ord, V, E>(
    bs: Seq<Branch<H, N, V>>,
    i: int,
    changed: bool,
    hash: H,
    number: N,
    d: spec_fn(H, H) -> Result<bool, E>,
)
    requires
        0 <= i <= bs.len(),
    ensures
        ({
            let (left, at, c) = finalization::open_ancestors(bs, i, changed, hash, number, d);
            &&& changed ==> c
            &&& !c ==> left == bs
            &&& at matches Some(k) ==> 0 <= k < left.len() && left[k].hash.is_eq(&hash)
            &&& contents::contents(left).subset_of(contents::contents(bs))
            &&& model::walk_all(left).len() <= model::walk_all(bs).len()
            &&& c && !changed ==> model::walk_all(left).len() < model::walk_all(bs).len()
        }),
    decreases model::walk_all(bs.skip(i)).len(),
{
    if i < bs.len() && !bs[i].hash.is_eq(&hash) {
        finalization::lemma_open_shrinks(bs, i);
        let less = finalization::swap_removed(bs, i);
        contents::lemma_contents_swap_removed(bs, i);
        if finalization::is_descendant(bs[i], hash, number, d) {
            lemma_open_ancestors(bs, i + 1, changed, hash, number, d);
        } else if finalization::is_ancestor(bs[i], hash, number, d) {
            lemma_open_ancestors(less + bs[i].children, i, true, hash, number, d);
            contents::lemma_contents_add(less, bs[i].children);
            assert(contents::contents(less + bs[i].children).subset_of(contents::contents(bs)));
        } else {
            lemma_open_ancestors(less, i, true, hash, number, d);
        }
    }
}

/// What is held after filtering was held before.
proof fn lemma_contents_filter<H, N, V>(
    bs: Seq<Branch<H, N, V>>,
    keep: spec_fn(Branch<H, N, V>) -> bool,
)
    ensures
        contents::contents(bs.filter(keep)).subset_of(contents::contents(bs)),
    decreases bs.len(),
{
    reveal(Seq::filter);
    if bs.len() > 0 {
        let rest = bs.drop_last();
        lemma_contents_filter(rest, keep);
        contents::lemma_contents_push(rest, bs.last());
        contents::lemma_contents_push(rest.filter(keep), bs.last());
        assert(rest.push(bs.last()) =~= bs);
    }
}

/// A hash that is found is found at one of the branches.
pub proof fn lemma_first_with_hash<H: PartialEq, N, V>(bs: Seq<Branch<H, N, V>>, i: int, hash: H)
    requires
        0 <= i <= bs.len(),
    ensures
        match finalization::first_with_hash(bs, i, hash) {
            Some(k) => i <= k < bs.len() && bs[k].hash.is_eq(&hash),
            None => forall|k: int| i <= k < bs.len() ==> !(#[trigger] bs[k]).hash.is_eq(&hash),
        },
    decreases bs.len() - i,
{
    if i < bs.len() && !bs[i].hash.is_eq(&hash) {
        lemma_first_with_hash(bs, i + 1, hash);
    }
}

/// A branch that is found to be finalized is one of the branches.
pub proof fn lemma_first_finalized<H: PartialEq, N: Ord, V, E>(
    bs: Seq<Branch<H, N, V>>,
    i: int,
    hash: H,
    number: N,
    d: spec_fn(H, H) -> Result<bool, E>,
    q: spec_fn(V) -> bool,
)
    requires
        0 <= i <= bs.len(),
    ensures
        match finalization::first_finalized(bs, i, hash, number, d, q) {
            Ok(Some(k)) => i <= k < bs.len() && finalization::finalizes(
                bs[k],
                hash,
                number,
                d,
                q,
            ) == Ok::<bool, Error<E>>(true),
            Ok(None) => forall|k: int|
                i <= k < bs.len() ==> finalization::finalizes(
                    #[trigger] bs[k],
                    hash,
                    number,
                    d,
                    q,
                ) == Ok::<bool, Error<E>>(false),
            Err(_) => true,
        },
    decreases bs.len() - i,
{
    if i < bs.len() {
        lemma_first_finalized(bs, i + 1, hash, number, d, q);
    }
}

/// Finalizing removes nodes and never adds or alters one.
pub proof fn law_finalize_only_removes<H: PartialEq, N: Ord, V, E>(
    t: Forest<H, N, V>,
    hash: H,
    number: N,
    d: spec_fn(H, H) -> Result<bool, E>,
    q: spec_fn(V) -> bool,
)
    ensures
        contents::contents(finalization::finalized(t, hash, number, d).0.roots).subset_of(
            contents::contents(t.roots),
        ),
        contents::contents(
            finalization::finalized_with_ancestors(t, hash, number, d).0.roots,
        ).subset_of(contents::contents(t.roots)),
        contents::contents(
            finalization::finalized_with_descendent(t, hash, number, d, q).0.roots,
        ).subset_of(contents::contents(t.roots)),
{
    let agree = |b: Branch<H, N, V>| finalization::agrees(b, hash, number, d);
    lemma_first_with_hash(t.roots, 0, hash);
    if let Some(i) = finalization::first_with_hash(t.roots, 0, hash) {
        contents::lemma_contents_children(t.roots, i);
    }
    lemma_contents_filter(
        t.roots,
        |b: Branch<H, N, V>| finalization::is_descendant(b, hash, number, d),
    );
    lemma_open_ancestors(t.roots, 0, false, hash, number, d);
    let (left, at, _) = finalization::open_ancestors(t.roots, 0, false, hash, number, d);
    if let Some(i) = at {
        contents::lemma_contents_children(left, i);
    }
    lemma_first_finalized(t.roots, 0, hash, number, d, q);
    lemma_contents_filter(t.roots, agree);
    if let Ok(Some(i)) = finalization::first_finalized(t.roots, 0, hash, number, d, q) {
        contents::lemma_contents_children(t.roots, i);
        lemma_contents_filter(t.roots[i].children, agree);
    }
}

/// All branches that are left when ancestors are opened descend from the
/// node, if the branches before the `i`-th do.
pub proof fn lemma_open_ancestors_left<H: PartialEq, N: Ord, V, E>(
    bs: Seq<Branch<H, N, V>>,
    i: int,
    changed: bool,
    hash: H,
    number: N,
    d: spec_fn(H, H) -> Result<bool, E>,
)
    requires
        0 <= i <= bs.len(),
        forall|k: int|
            0 <= k < i ==> finalization::is_descendant(#[trigger] bs[k], hash, number, d),
    ensures
        ({
            let (left, at, c) = finalization::open_ancestors(bs, i, changed, hash, number, d);
            at is None ==> forall|k: int|
                0 <= k < left.len() ==> finalization::is_descendant(
                    #[trigger] left[k],
                    hash,
                    number,
                    d,
                )
        }),
    decreases model::walk_all(bs.skip(i)).len(),
{
    if i < bs.len() && !bs[i].hash.is_eq(&hash) {
        finalization::lemma_open_shrinks(bs, i);
        let less = finalization::swap_removed(bs, i);
        assert forall|k: int| 0 <= k < i implies finalization::is_descendant(
            #[trigger] less[k],
            hash,
            number,
            d,
        ) && finalization::is_descendant(
            #[trigger] (less + bs[i].children)[k],
            hash,
            number,
            d,
        ) by {
            assert(less[k] == bs[k]);
        }
        if finalization::is_descendant(bs[i], hash, number, d) {
            lemma_open_ancestors_left(bs, i + 1, changed, hash, number, d);
        } else if finalization::is_ancestor(bs[i], hash, number, d) {
            lemma_open_ancestors_left(less + bs[i].children, i, true, hash, number, d);
        } else {
            lemma_open_ancestors_left(less, i, true, hash, number, d);
        }
    }
}

/// Finalizing a node that is not in the tree, with its ancestors, leaves only
/// roots that descend from the node.
pub proof fn law_ancestors_finalized<H: PartialEq, N: Ord, V, E>(
    t: Forest<H, N, V>,
    hash: H,
    number: N,
    d: spec_fn(H, H) -> Result<bool, E>,
)
    ensures
        ({
            let (after, r) = finalization::finalized_with_ancestors(t, hash, number, d);
            r == Ok::<_, Error<E>>(FinalizationResult::<V>::Changed(None)) || r == Ok::<
                _,
                Error<E>,
            >(FinalizationResult::<V>::Unchanged) ==> forall|k: int|
                0 <= k < after.roots.len() ==> finalization::is_descendant(
                    #[trigger] after.roots[k],
                    hash,
                    number,
                    d,
                )
        }),
{
    lemma_open_ancestors_left(t.roots, 0, false, hash, number, d);
}

/// None of the children from the `i`-th on is overtaken.
proof fn lemma_not_overtaken<H, N: Ord, V, E>(
    bs: Seq<Branch<H, N, V>>,
    i: int,
    hash: H,
    number: N,
    d: spec_fn(H, H) -> Result<bool, E>,
)
    requires
        0 <= i <= bs.len(),
        finalization::overtaken(bs, i, hash, number, d) is None,
    ensures
        forall|k: int|
            i <= k < bs.len() && (#[trigger] bs[k]).number.is_le(&number) ==> d(bs[k].hash, hash)
                == Ok::<bool, E>(false),
    decreases bs.len() - i,
{
    if i < bs.len() {
        lemma_answer(d(bs[i].hash, hash));
        lemma_not_overtaken(bs, i + 1, hash, number, d);
    }
}

/// A root that is finalized by a descendent passes the predicate, is the node
/// or an ancestor of it, and none of its children, as far as they are not
/// higher, is an ancestor of the node.
pub proof fn law_descendent_not_past_child<H: PartialEq, N: Ord, V, E>(
    t: Forest<H, N, V>,
    hash: H,
    number: N,
    d: spec_fn(H, H) -> Result<bool, E>,
    q: spec_fn(V) -> bool,
    data: V,
)
    requires
        finalization::finalized_with_descendent(t, hash, number, d, q).1 == Ok::<_, Error<E>>(
            FinalizationResult::Changed(Some(data)),
        ),
    ensures
        exists|i: int|
            {
                &&& 0 <= i < t.roots.len()
                &&& (#[trigger] t.roots[i]).data == data
                &&& q(data)
                &&& t.roots[i].hash.is_eq(&hash) || d(t.roots[i].hash, hash) == Ok::<bool, E>(true)
                &&& forall|k: int|
                    0 <= k < t.roots[i].children.len() && (
                    #[trigger] t.roots[i].children[k]).number.is_le(&number) ==> d(
                        t.roots[i].children[k].hash,
                        hash,
                    ) == Ok::<bool, E>(false)
            },
{
    lemma_first_finalized(t.roots, 0, hash, number, d, q);
    let i = finalization::first_finalized(t.roots, 0, hash, number, d, q)->Ok_0->Some_0;
    assert(t.roots[i].data == data);
    let b = t.roots[i];
    lemma_answer(d(b.hash, hash));
    lemma_not_overtaken(b.children, 0, hash, number, d);
}

/// A walk through all branches comes to each of them.
proof fn lemma_root_in_walk<H, N, V>(bs: Seq<Branch<H, N, V>>, i: int)
    requires
        0 <= i < bs.len(),
    ensures
        model::walk_all(bs).contains(bs[i]),
    decreases bs.len(),
{
    let rest = bs.drop_first();
    let all = model::walk_all(bs);
    if i == 0 {
        assert(model::walk(bs[0])[0] == bs[0]);
        assert(all[0] == bs[0]);
    } else {
        lemma_root_in_walk(rest, i - 1);
        let k = choose|k: int|
            0 <= k < model::walk_all(rest).len() && model::walk_all(rest)[k] == rest[i - 1];
        assert(all[model::walk(bs[0]).len() + k] == bs[i]);
    }
}

/// If no node of the tree would be finalized, no root is.
pub proof fn law_none_finalized<H: PartialEq, N: Ord, V, E>(
    t: Forest<H, N, V>,
    hash: H,
    number: N,
    d: spec_fn(H, H) -> Result<bool, E>,
    q: spec_fn(V) -> bool,
)
    requires
        finalization::finalizes_any(t, hash, number, d, q) == Ok::<Option<bool>, Error<E>>(None),
    ensures
        finalization::finalized_with_descendent(t, hash, number, d, q).1 == Ok::<_, Error<E>>(
            FinalizationResult::<V>::Unchanged,
        ) || finalization::finalized_with_descendent(t, hash, number, d, q).1 == Ok::<_, Error<E>>(
            FinalizationResult::<V>::Changed(None),
        ),
{
    let nodes = model::walk_all(t.roots);
    lemma_first_finalized(nodes, 0, hash, number, d, q);
    assert forall|k: int| 0 <= k < t.roots.len() implies finalization::finalizes(
        #[trigger] t.roots[k],
        hash,
        number,
        d,
        q,
    ) == Ok::<bool, Error<E>>(false) by {
        lemma_root_in_walk(t.roots, k);
        let j = choose|j: int| 0 <= j < nodes.len() && nodes[j] == t.roots[k];
        assert(finalization::finalizes(nodes[j], hash, number, d, q) == Ok::<bool, Error<E>>(
            false,
        ));
    }
    lemma_none_first(t.roots, 0, hash, number, d, q);
}

/// If none of the branches is finalized, none is the first.
proof fn lemma_none_first<H: PartialEq, N: Ord, V, E>(
    bs: Seq<Branch<H, N, V>>,
    i: int,
    hash: H,
    number: N,
    d: spec_fn(H, H) -> Result<bool, E>,
    q: spec_fn(V) -> bool,
)
    requires
        0 <= i <= bs.len(),
        forall|k: int|
            0 <= k < bs.len() ==> finalization::finalizes(#[trigger] bs[k], hash, number, d, q)
                == Ok::<bool, Error<E>>(false),
    ensures
        finalization::first_finalized(bs, i, hash, number, d, q) == Ok::<Option<int>, Error<E>>(
            None,
        ),
    decreases bs.len() - i,
{
    if i < bs.len() {
        lemma_none_first(bs, i + 1, hash, number, d, q);
    }
}

/// What a search finds is in the branch.
proof fn lemma_search_is_path<H, N: Ord, V, E>(
    b: Branch<H, N, V>,
    hash: H,
    number: N,
    d: spec_fn(H, H) -> Result<bool, E>,
    q: spec_fn(V) -> bool,
)
    ensures
        search::search(b, hash, number, d, q) matches Ok(FindOutcome::Found(path))
            ==> model::is_path_from(b, path) && q(model::node_from(b, path).data),
    decreases b, 0int,
{
    lemma_search_is_path_all(b.children, 0, hash, number, d, q);
}

/// What a search finds is in the branches.
proof fn lemma_search_is_path_all<H, N: Ord, V, E>(
    bs: Seq<Branch<H, N, V>>,
    i: int,
    hash: H,
    number: N,
    d: spec_fn(H, H) -> Result<bool, E>,
    q: spec_fn(V) -> bool,
)
    requires
        0 <= i <= bs.len(),
    ensures
        search::search_all(bs, i, hash, number, d, q) matches Ok(FindOutcome::Found(path))
            ==> model::is_path(bs, path) && q(model::node_at(bs, path).data),
    decreases bs, bs.len() - i,
{
    if i < bs.len() {
        lemma_search_is_path(bs[i], hash, number, d, q);
        lemma_search_is_path_all(bs, i + 1, hash, number, d, q);
        if let Ok(FindOutcome::Found(path)) = search::search(bs[i], hash, number, d, q) {
            model::lemma_path_below(bs, i, path);
        }
    }
}

/// What is found in the tree is a node of the tree that passes the predicate.
pub proof fn law_find_is_in_tree<H, N: Ord, V, E>(
    bs: Seq<Branch<H, N, V>>,
    hash: H,
    number: N,
    d: spec_fn(H, H) -> Result<bool, E>,
    q: spec_fn(V) -> bool,
)
    ensures
        search::find(bs, 0, hash, number, d, q) matches Ok(Some(path)) ==> model::is_path(bs, path)
            && q(model::node_at(bs, path).data),
{
    lemma_find_is_path(bs, 0, hash, number, d, q);
}

/// What is found in the branches is a node of them.
proof fn lemma_find_is_path<H, N: Ord, V, E>(
    bs: Seq<Branch<H, N, V>>,
    i: int,
    hash: H,
    number: N,
    d: spec_fn(H, H) -> Result<bool, E>,
    q: spec_fn(V) -> bool,
)
    requires
        0 <= i <= bs.len(),
    ensures
        search::find(bs, i, hash, number, d, q) matches Ok(Some(path)) ==> model::is_path(bs, path)
            && q(model::node_at(bs, path).data),
    decreases bs.len() - i,
{
    if i < bs.len() {
        lemma_search_is_path(bs[i], hash, number, d, q);
        lemma_find_is_path(bs, i + 1, hash, number, d, q);
        if let Ok(FindOutcome::Found(path)) = search::find_from(bs[i], hash, number, d, q) {
            model::lemma_path_below(bs, i, path);
        }
    }
}

/// The child that stays is one of the children.
pub proof fn lemma_heir<H: PartialEq, N: Ord, V, E>(
    bs: Seq<Branch<H, N, V>>,
    i: int,
    hash: H,
    number: N,
    d: spec_fn(H, H) -> Result<bool, E>,
)
    requires
        0 <= i <= bs.len(),
    ensures
        finalization::heir(bs, i, hash, number, d) matches Some(k) ==> i <= k < bs.len()
            && finalization::leads_to(bs[k], hash, number, d),
    decreases bs.len() - i,
{
    if i < bs.len() {
        lemma_heir(bs, i + 1, hash, number, d);
    }
}

/// Pruning returns every node that leaves the tree: what the tree held before
/// is what it holds afterwards together with what was returned.
pub proof fn law_prune_conserves<H: PartialEq, N: Ord, V, E>(
    t: Forest<H, N, V>,
    hash: H,
    number: N,
    d: spec_fn(H, H) -> Result<bool, E>,
    q: spec_fn(V) -> bool,
)
    ensures
        ({
            let (after, removed) = finalization::pruned(t, hash, number, d, q);
            match removed {
                Ok(parts) => contents::contents(t.roots) == contents::contents(after.roots).add(
                    parts.to_multiset(),
                ),
                Err(_) => after == t,
            }
        }),
{
    law_find_is_in_tree(t.roots, hash, number, d, q);
    match search::find(t.roots, 0, hash, number, d, q) {
        Ok(Some(path)) => {
            let b = model::node_at(t.roots, path);
            lemma_heir(b.children, 0, hash, number, d);
            contents::lemma_contents_pruned(
                t.roots,
                path,
                finalization::heir(b.children, 0, hash, number, d),
            );
        },
        Ok(None) => {
            Seq::<(H, N, V)>::empty().to_multiset_ensures();
            assert(Seq::<(H, N, V)>::empty().to_multiset() =~= Multiset::empty());
            assert(contents::contents(t.roots) =~= contents::contents(t.roots).add(
                Multiset::empty(),
            ));
        },
        Err(_) => {},
    }
}

/// The tree that is left after pruning has the found node as its only root,
/// with at most one child, which leads to the target.
pub proof fn law_prune_reroots<H: PartialEq, N: Ord, V, E>(
    t: Forest<H, N, V>,
    hash: H,
    number: N,
    d: spec_fn(H, H) -> Result<bool, E>,
    q: spec_fn(V) -> bool,
    path: Seq<int>,
)
    requires
        search::find(t.roots, 0, hash, number, d, q) == Ok::<_, Error<E>>(Some(path)),
    ensures
        ({
            let after = finalization::pruned(t, hash, number, d, q).0;
            let root = after.roots[0];
            &&& after.roots.len() == 1
            &&& model::entry(root) == model::entry(model::node_at(t.roots, path))
            &&& root.children.len() <= 1
            &&& root.children.len() == 1 ==> finalization::leads_to(
                root.children[0],
                hash,
                number,
                d,
            )
            &&& after.best_finalized_number == t.best_finalized_number
        }),
{
    let b = model::node_at(t.roots, path);
    let heir = finalization::heir(b.children, 0, hash, number, d);
    lemma_heir(b.children, 0, hash, number, d);
    let root = finalization::inherited(b, heir);
    if let Some(k) = heir {
        balance::lemma_rebalanced_one(b.children[k]);
    } else {
        assert(balance::rebalanced_each(root.children) =~= Seq::empty());
    }
}

} // verus!
