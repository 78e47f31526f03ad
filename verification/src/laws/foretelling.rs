//! What is said beforehand about finalizing by a descendent is what happens.

use vstd::prelude::*;
use vstd::std_specs::cmp::PartialEqIs;

use crate::error::{Error, FinalizationResult};
use crate::finalization;
use crate::laws::finalizing;
use crate::laws::searching;
use crate::laws::truthful;
use crate::model;
use crate::model::{Branch, Forest};

verus! {

/// Neither `b` nor any node below it is the block, and the client knows none of
/// them as an ancestor of it.
pub open spec fn is_off_line<H: PartialEq, N, V, E>(
    b: Branch<H, N, V>,
    hash: H,
    d: spec_fn(H, H) -> Result<bool, E>,
) -> bool {
    searching::lacks(b, hash) && searching::quiet(b, hash, d)
}

/// Of any two roots, at least one has nothing to do with the block.
pub open spec fn is_on_one_line<H: PartialEq, N, V, E>(
    bs: Seq<Branch<H, N, V>>,
    hash: H,
    d: spec_fn(H, H) -> Result<bool, E>,
) -> bool {
    forall|i: int, j: int|
        0 <= i < j < bs.len() ==> is_off_line(#[trigger] bs[i], hash, d) || is_off_line(
            #[trigger] bs[j],
            hash,
            d,
        )
}

/// No node below a root has the hash of a root.
pub open spec fn has_own_roots<H: PartialEq, N, V>(bs: Seq<Branch<H, N, V>>) -> bool {
    forall|i: int, j: int|
        0 <= i < bs.len() && 0 <= j < bs.len() ==> searching::absent(
            (#[trigger] bs[i]).children,
            (#[trigger] bs[j]).hash,
        )
}

/// A node of a branch that is off the line is not finalized by the block.
proof fn lemma_off_line<H: PartialEq, N: Ord, V, E>(
    b: Branch<H, N, V>,
    i: int,
    hash: H,
    n: N,
    d: spec_fn(H, H) -> Result<bool, E>,
    q: spec_fn(V) -> bool,
)
    requires
        is_off_line(b, hash, d),
        0 <= i < model::walk(b).len(),
    ensures
        finalization::finalizes(model::walk(b)[i], hash, n, d, q) == Ok::<bool, Error<E>>(false),
    decreases b, 0int,
{
    if i == 0 {
        assert(model::walk(b)[0] == b);
    } else {
        assert forall|k: int| 0 <= k < b.children.len() implies is_off_line(
            #[trigger] b.children[k],
            hash,
            d,
        ) by {}
        lemma_off_line_all(b.children, i - 1, hash, n, d, q);
        assert(model::walk(b)[i] == model::walk_all(b.children)[i - 1]);
    }
}

/// A node of branches that are off the line is not finalized by the block.
proof fn lemma_off_line_all<H: PartialEq, N: Ord, V, E>(
    bs: Seq<Branch<H, N, V>>,
    i: int,
    hash: H,
    n: N,
    d: spec_fn(H, H) -> Result<bool, E>,
    q: spec_fn(V) -> bool,
)
    requires
        forall|k: int| 0 <= k < bs.len() ==> is_off_line(#[trigger] bs[k], hash, d),
        0 <= i < model::walk_all(bs).len(),
    ensures
        finalization::finalizes(model::walk_all(bs)[i], hash, n, d, q) == Ok::<bool, Error<E>>(
            false,
        ),
    decreases bs, 1int,
{
    let first = model::walk(bs[0]);
    let rest = bs.drop_first();
    if i < first.len() {
        lemma_off_line(bs[0], i, hash, n, d, q);
        assert(model::walk_all(bs)[i] == first[i]);
    } else {
        assert forall|k: int| 0 <= k < rest.len() implies is_off_line(
            #[trigger] rest[k],
            hash,
            d,
        ) by {
            assert(rest[k] == bs[k + 1]);
        }
        lemma_off_line_all(rest, i - first.len(), hash, n, d, q);
        assert(model::walk_all(bs)[i] == model::walk_all(rest)[i - first.len()]);
    }
}

/// A hash that is absent is not met on a walk.
proof fn lemma_walk_absent<H: PartialEq, N, V>(bs: Seq<Branch<H, N, V>>, i: int, hash: H)
    requires
        searching::absent(bs, hash),
        0 <= i < model::walk_all(bs).len(),
    ensures
        !model::walk_all(bs)[i].hash.is_eq(&hash),
    decreases bs,
{
    let b = bs[0];
    let first = model::walk(b);
    let rest = bs.drop_first();
    assert(!b.hash.is_eq(&hash) && searching::absent(b.children, hash));
    if i == 0 {
        assert(first[0] == b);
        assert(model::walk_all(bs)[0] == b);
    } else if i < first.len() {
        lemma_walk_absent(b.children, i - 1, hash);
        assert(first[i] == model::walk_all(b.children)[i - 1]);
        assert(model::walk_all(bs)[i] == first[i]);
    } else {
        assert forall|k: int| 0 <= k < rest.len() implies !(#[trigger] rest[k]).hash.is_eq(&hash)
            && searching::absent(rest[k].children, hash) by {
            assert(rest[k] == bs[k + 1]);
        }
        lemma_walk_absent(rest, i - first.len(), hash);
        assert(model::walk_all(bs)[i] == model::walk_all(rest)[i - first.len()]);
    }
}

/// Branches that are not finalized are passed over.
proof fn lemma_first_passes<H: PartialEq, N: Ord, V, E>(
    bs: Seq<Branch<H, N, V>>,
    i: int,
    k: int,
    hash: H,
    n: N,
    d: spec_fn(H, H) -> Result<bool, E>,
    q: spec_fn(V) -> bool,
)
    requires
        0 <= i <= k <= bs.len(),
        forall|j: int|
            i <= j < k ==> finalization::finalizes(#[trigger] bs[j], hash, n, d, q) == Ok::<
                bool,
                Error<E>,
            >(false),
    ensures
        finalization::first_finalized(bs, i, hash, n, d, q) == finalization::first_finalized(
            bs,
            k,
            hash,
            n,
            d,
            q,
        ),
    decreases k - i,
{
    if i < k {
        assert(finalization::finalizes(bs[i], hash, n, d, q) == Ok::<bool, Error<E>>(false));
        lemma_first_passes(bs, i + 1, k, hash, n, d, q);
    }
}

/// The root whose branch a node of the iteration belongs to, and the place of
/// the node in that branch.
proof fn lemma_walk_all_from<H, N, V>(bs: Seq<Branch<H, N, V>>, i: int) -> (at: (int, int))
    requires
        0 <= i < model::walk_all(bs).len(),
    ensures
        0 <= at.0 < bs.len(),
        0 <= at.1 < model::walk(bs[at.0]).len(),
        model::walk_all(bs)[i] == model::walk(bs[at.0])[at.1],
    decreases bs.len(),
{
    let first = model::walk(bs[0]);
    if i < first.len() {
        (0, i)
    } else {
        let (m, l) = lemma_walk_all_from(bs.drop_first(), i - first.len());
        (m + 1, l)
    }
}

/// Where the iteration comes to a root: after it has gone through the branches
/// of the roots before it only.
proof fn lemma_walk_all_to<H, N, V>(bs: Seq<Branch<H, N, V>>, k: int) -> (i: int)
    requires
        0 <= k < bs.len(),
    ensures
        0 <= i < model::walk_all(bs).len(),
        model::walk_all(bs)[i] == bs[k],
        forall|j: int|
            0 <= j < i ==> j < model::walk_all(bs.take(k)).len() && #[trigger] model::walk_all(
                bs,
            )[j] == model::walk_all(bs.take(k))[j],
{
    let one = seq![bs[k]];
    let before = model::walk_all(bs.take(k));
    assert(bs =~= bs.take(k) + one + bs.skip(k + 1));
    model::lemma_walk_all_add(bs.take(k) + one, bs.skip(k + 1));
    model::lemma_walk_all_add(bs.take(k), one);
    model::lemma_walk_one(bs[k]);
    assert(model::walk(bs[k])[0] == bs[k]);
    before.len() as int
}

/// How a check beforehand and finalizing itself look for the root that may have
/// to do with the block.
proof fn lemma_same_root<H: PartialEq, N: Ord, V, E>(
    bs: Seq<Branch<H, N, V>>,
    k: int,
    hash: H,
    n: N,
    d: spec_fn(H, H) -> Result<bool, E>,
    q: spec_fn(V) -> bool,
) -> (i: int)
    requires
        0 <= k < bs.len(),
        forall|m: int| 0 <= m < bs.len() && m != k ==> is_off_line(#[trigger] bs[m], hash, d),
    ensures
        0 <= i < model::walk_all(bs).len(),
        model::walk_all(bs)[i] == bs[k],
        ({
            let nodes = model::walk_all(bs);
            &&& finalization::first_finalized(nodes, 0, hash, n, d, q)
                == finalization::first_finalized(nodes, i, hash, n, d, q)
            &&& finalization::first_finalized(bs, 0, hash, n, d, q) == match finalization::finalizes(
                bs[k],
                hash,
                n,
                d,
                q,
            ) {
                Ok(true) => Ok::<_, Error<E>>(Some(k)),
                Ok(false) => Ok::<_, Error<E>>(None),
                Err(e) => Err(e),
            }
        }),
{
    let nodes = model::walk_all(bs);
    let i = lemma_walk_all_to(bs, k);
    assert forall|j: int| 0 <= j < i implies finalization::finalizes(
        #[trigger] nodes[j],
        hash,
        n,
        d,
        q,
    ) == Ok::<bool, Error<E>>(false) by {
        let (m, l) = lemma_walk_all_from(bs.take(k), j);
        assert(bs.take(k)[m] == bs[m]);
        lemma_off_line(bs[m], l, hash, n, d, q);
    }
    lemma_first_passes(nodes, 0, i, hash, n, d, q);
    assert forall|m: int| 0 <= m < bs.len() && m != k implies finalization::finalizes(
        #[trigger] bs[m],
        hash,
        n,
        d,
        q,
    ) == Ok::<bool, Error<E>>(false) by {
        assert(model::walk(bs[m])[0] == bs[m]);
        lemma_off_line(bs[m], 0, hash, n, d, q);
    }
    lemma_first_passes(bs, 0, k, hash, n, d, q);
    lemma_first_passes(bs, k + 1, bs.len() as int, hash, n, d, q);
    i
}

/// Checking beforehand whether a root would be finalized by a block tells
/// exactly whether finalizing by that block finalizes a root, and if
/// finalizing fails, so does the check, for the same reason. All that is asked
/// of the client is that, by its answers about the block, at most one root has
/// to do with it; nothing is asked of numbers.
pub proof fn law_check_foretells_known_root<H: PartialEq, N: Ord, V, E>(
    t: Forest<H, N, V>,
    hash: H,
    n: N,
    d: spec_fn(H, H) -> Result<bool, E>,
    q: spec_fn(V) -> bool,
)
    requires
        truthful::exact_hashes::<H>(),
        is_on_one_line(t.roots, hash, d),
        has_own_roots(t.roots),
    ensures
        ({
            let check = finalization::finalizes_any(t, hash, n, d, q);
            let r = finalization::finalized_with_descendent(t, hash, n, d, q).1;
            &&& check == Ok::<Option<bool>, Error<E>>(Some(true)) <==> (r matches Ok(
                FinalizationResult::Changed(Some(_)),
            ))
            &&& r matches Err(e) ==> check == Err::<Option<bool>, Error<E>>(e)
        }),
{
    let bs = t.roots;
    let nodes = model::walk_all(bs);
    if !finalization::reverts(t, n) {
        if exists|k: int| 0 <= k < bs.len() && !is_off_line(#[trigger] bs[k], hash, d) {
            let k = choose|k: int| 0 <= k < bs.len() && !is_off_line(#[trigger] bs[k], hash, d);
            assert forall|m: int| 0 <= m < bs.len() && m != k implies is_off_line(
                #[trigger] bs[m],
                hash,
                d,
            ) by {
                assert(!is_off_line(bs[k], hash, d));
            }
            let i = lemma_same_root(bs, k, hash, n, d, q);
            finalizing::lemma_first_finalized(nodes, i, hash, n, d, q);
            assert(bs[k].hash.is_eq(&bs[k].hash));
            match finalization::finalizes(bs[k], hash, n, d, q) {
                Ok(true) => {},
                Ok(false) => {
                    match finalization::first_finalized(nodes, 0, hash, n, d, q) {
                        Ok(Some(j)) => {
                            let node = nodes[j];
                            let (m, l) = lemma_walk_all_from(bs, j);
                            if m != k {
                                lemma_off_line(bs[m], l, hash, n, d, q);
                            }
                            assert(model::walk(bs[k])[0] == bs[k]);
                            assert(l > 0);
                            assert(node == model::walk_all(bs[k].children)[l - 1]);
                            assert forall|r: int| 0 <= r < bs.len() implies !(
                            #[trigger] bs[r]).hash.is_eq(&node.hash) by {
                                assert(searching::absent(bs[k].children, bs[r].hash));
                                lemma_walk_absent(bs[k].children, l - 1, bs[r].hash);
                                assert(bs[r].hash.is_eq(&node.hash) == (bs[r].hash == node.hash));
                                assert(node.hash.is_eq(&bs[r].hash) == (node.hash == bs[r].hash));
                            }
                        },
                        _ => {},
                    }
                },
                Err(_) => {},
            }
        } else {
            assert forall|j: int| 0 <= j < nodes.len() implies finalization::finalizes(
                #[trigger] nodes[j],
                hash,
                n,
                d,
                q,
            ) == Ok::<bool, Error<E>>(false) by {
                lemma_off_line_all(bs, j, hash, n, d, q);
            }
            lemma_first_passes(nodes, 0, nodes.len() as int, hash, n, d, q);
            assert forall|m: int| 0 <= m < bs.len() implies finalization::finalizes(
                #[trigger] bs[m],
                hash,
                n,
                d,
                q,
            ) == Ok::<bool, Error<E>>(false) by {
                assert(model::walk(bs[m])[0] == bs[m]);
                lemma_off_line(bs[m], 0, hash, n, d, q);
            }
            lemma_first_passes(bs, 0, bs.len() as int, hash, n, d, q);
        }
    }
}

/// If a root is neither the block nor an ancestor of it, its branch is off the
/// line.
proof fn lemma_truth_off_line<H: PartialEq, N: Ord, V, E>(
    b: Branch<H, N, V>,
    hash: H,
    above: spec_fn(H, H) -> bool,
    number: spec_fn(H) -> N,
)
    requires
        truthful::is_ancestry(above, number),
        truthful::exact_hashes::<H>(),
        truthful::mirrors(b, above, number),
        b.hash != hash,
        !above(b.hash, hash),
    ensures
        is_off_line(b, hash, truthful::truth::<H, E>(above)),
    decreases b,
{
    let d = truthful::truth::<H, E>(above);
    assert(b.hash.is_eq(&hash) == (b.hash == hash));
    assert forall|i: int| 0 <= i < b.children.len() implies is_off_line(
        #[trigger] b.children[i],
        hash,
        d,
    ) by {
        let c = b.children[i];
        assert(above(b.hash, c.hash));
        assert(truthful::mirrors(c, above, number));
        lemma_truth_off_line::<H, N, V, E>(c, hash, above, number);
    }
}

/// A hash that none of the branches has or leads to is absent.
proof fn lemma_truth_absent<H: PartialEq, N: Ord, V>(
    bs: Seq<Branch<H, N, V>>,
    hash: H,
    above: spec_fn(H, H) -> bool,
    number: spec_fn(H) -> N,
)
    requires
        truthful::is_ancestry(above, number),
        truthful::exact_hashes::<H>(),
        truthful::mirrors_all(bs, above, number),
        forall|i: int|
            0 <= i < bs.len() ==> (#[trigger] bs[i]).hash != hash && !above(bs[i].hash, hash),
    ensures
        searching::absent(bs, hash),
{
    assert forall|i: int| 0 <= i < bs.len() implies searching::lacks(#[trigger] bs[i], hash) by {
        assert(truthful::mirrors(bs[i], above, number));
        lemma_truth_off_line::<H, N, V, ()>(bs[i], hash, above, number);
    }
}

/// Checking beforehand whether a root would be finalized by a block tells
/// exactly whether finalizing by that block finalizes a root, and if
/// finalizing fails, so does the check, for the same reason, as long as the
/// client tells the truth.
pub proof fn law_check_foretells_root<H: PartialEq, N: Ord, V, E>(
    t: Forest<H, N, V>,
    hash: H,
    n: N,
    q: spec_fn(V) -> bool,
    above: spec_fn(H, H) -> bool,
    number: spec_fn(H) -> N,
)
    requires
        truthful::is_ancestry(above, number),
        truthful::exact_hashes::<H>(),
        truthful::mirrors_all(t.roots, above, number),
    ensures
        ({
            let d = truthful::truth::<H, E>(above);
            let check = finalization::finalizes_any(t, hash, n, d, q);
            let r = finalization::finalized_with_descendent(t, hash, n, d, q).1;
            &&& check == Ok::<Option<bool>, Error<E>>(Some(true)) <==> (r matches Ok(
                FinalizationResult::Changed(Some(_)),
            ))
            &&& r matches Err(e) ==> check == Err::<Option<bool>, Error<E>>(e)
        }),
{
    let d = truthful::truth::<H, E>(above);
    let bs = t.roots;
    assert forall|i: int, j: int| 0 <= i < j < bs.len() implies is_off_line(
        #[trigger] bs[i],
        hash,
        d,
    ) || is_off_line(#[trigger] bs[j], hash, d) by {
        truthful::lemma_siblings(bs, i, j, above, number);
        assert(truthful::mirrors(bs[i], above, number));
        assert(truthful::mirrors(bs[j], above, number));
        if bs[i].hash == hash || above(bs[i].hash, hash) {
            lemma_truth_off_line::<H, N, V, E>(bs[j], hash, above, number);
        } else {
            lemma_truth_off_line::<H, N, V, E>(bs[i], hash, above, number);
        }
    }
    assert forall|i: int, j: int| 0 <= i < bs.len() && 0 <= j < bs.len() implies searching::absent(
        (#[trigger] bs[i]).children,
        (#[trigger] bs[j]).hash,
    ) by {
        assert(truthful::mirrors(bs[i], above, number));
        if i != j {
            truthful::lemma_siblings(bs, i, j, above, number);
        }
        assert forall|k: int| 0 <= k < bs[i].children.len() implies (
        #[trigger] bs[i].children[k]).hash != bs[j].hash && !above(
            bs[i].children[k].hash,
            bs[j].hash,
        ) by {
            assert(above(bs[i].hash, bs[i].children[k].hash));
        }
        lemma_truth_absent(bs[i].children, bs[j].hash, above, number);
    }
    law_check_foretells_known_root(t, hash, n, d, q);
}

} // verus!
