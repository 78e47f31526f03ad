//! Which requests are refused, and that all others are carried out.

use vstd::prelude::*;
use vstd::std_specs::cmp::{PartialEqIs, PartialOrdIs};
use vstd::std_specs::convert::FromSpec;

use crate::error::{Error, FinalizationResult};
use crate::finalization;
use crate::laws::answers;
use crate::laws::searching;
use crate::laws::truthful;
use crate::model;
use crate::model::{Branch, Forest};
use crate::placement;
use crate::placement::Placement;

verus! {

/// Looking for a place does not fail on account of the finalized number.
proof fn lemma_place_no_revert<H: PartialEq, N: Ord, V, E>(
    b: Branch<H, N, V>,
    hash: H,
    number: N,
    d: spec_fn(H, H) -> Result<bool, E>,
)
    ensures
        placement::place(b, hash, number, d) != Placement::<E>::Fails(Error::Revert),
    decreases b, 0int,
{
    lemma_place_all_no_revert(b.children, 0, hash, number, d);
}

/// Looking for a place below several branches does not fail on account of the
/// finalized number.
proof fn lemma_place_all_no_revert<H: PartialEq, N: Ord, V, E>(
    bs: Seq<Branch<H, N, V>>,
    i: int,
    hash: H,
    number: N,
    d: spec_fn(H, H) -> Result<bool, E>,
)
    requires
        0 <= i,
    ensures
        placement::place_all(bs, i, hash, number, d) != Placement::<E>::Fails(Error::Revert),
    decreases bs, bs.len() - i,
{
    if i < bs.len() {
        lemma_place_no_revert(bs[i], hash, number, d);
        lemma_place_all_no_revert(bs, i + 1, hash, number, d);
    }
}

/// Looking for an ancestor among the branches does not fail on account of the
/// finalized number.
proof fn lemma_ancestor_no_revert<H, N: Ord, V, E>(
    bs: Seq<Branch<H, N, V>>,
    i: int,
    hash: H,
    number: N,
    d: spec_fn(H, H) -> Result<bool, E>,
)
    requires
        0 <= i,
    ensures
        finalization::unfinalized_ancestor(bs, i, hash, number, d) != Some(Error::<E>::Revert),
        finalization::overtaken(bs, i, hash, number, d) != Some(Error::<E>::Revert),
    decreases bs.len() - i,
{
    if i < bs.len() {
        lemma_ancestor_no_revert(bs, i + 1, hash, number, d);
    }
}

/// Looking for a branch to finalize does not fail on account of the finalized
/// number.
proof fn lemma_first_finalized_no_revert<H: PartialEq, N: Ord, V, E>(
    bs: Seq<Branch<H, N, V>>,
    i: int,
    hash: H,
    number: N,
    d: spec_fn(H, H) -> Result<bool, E>,
    q: spec_fn(V) -> bool,
)
    requires
        0 <= i,
    ensures
        finalization::first_finalized(bs, i, hash, number, d, q) != Err::<Option<int>, _>(
            Error::<E>::Revert,
        ),
    decreases bs.len() - i,
{
    if i < bs.len() {
        lemma_ancestor_no_revert(bs[i].children, 0, hash, number, d);
        lemma_first_finalized_no_revert(bs, i + 1, hash, number, d, q);
    }
}

/// A request is refused as going back if and only if its number is at or below
/// the one that is finalized already.
pub proof fn law_revert_exactly<H: PartialEq, N: Ord, V, E>(
    t: Forest<H, N, V>,
    hash: H,
    number: N,
    data: V,
    d: spec_fn(H, H) -> Result<bool, E>,
    q: spec_fn(V) -> bool,
)
    ensures
        ({
            let behind = t.best_finalized_number matches Some(best) && number.is_le(&best);
            let refused = Err::<FinalizationResult<V>, _>(Error::<E>::Revert);
            &&& behind <==> placement::imported(t, hash, number, data, d).1 == Err::<bool, _>(
                Error::<E>::Revert,
            )
            &&& behind <==> finalization::finalized(t, hash, number, d).1 == refused
            &&& behind <==> finalization::finalized_with_ancestors(t, hash, number, d).1 == refused
            &&& behind <==> finalization::finalized_with_descendent(t, hash, number, d, q).1
                == refused
            &&& behind <==> finalization::finalizes_any(t, hash, number, d, q) == Err::<
                Option<bool>,
                _,
            >(Error::<E>::Revert)
        }),
{
    lemma_place_all_no_revert(t.roots, 0, hash, number, d);
    lemma_ancestor_no_revert(t.roots, 0, hash, number, d);
    lemma_first_finalized_no_revert(t.roots, 0, hash, number, d, q);
    lemma_first_finalized_no_revert(model::walk_all(t.roots), 0, hash, number, d, q);
}

/// With a client that tells the truth, a block that is new and not behind the
/// finalized number is imported. It becomes a root if and only if no block of
/// the tree is an ancestor of it. A block that is there already is a duplicate.
pub proof fn law_import_owed<H: PartialEq, N: Ord, V, E>(
    t: Forest<H, N, V>,
    hash: H,
    data: V,
    above: spec_fn(H, H) -> bool,
    number: spec_fn(H) -> N,
)
    requires
        truthful::is_ancestry(above, number),
        truthful::exact_hashes::<H>(),
        searching::strict_numbers::<N>(),
        truthful::mirrors_all(t.roots, above, number),
        t.best_finalized_number matches Some(best) ==> !number(hash).is_le(&best),
    ensures
        ({
            let r = placement::imported(
                t,
                hash,
                number(hash),
                data,
                truthful::truth::<H, E>(above),
            ).1;
            let known = exists|path: Seq<int>| #[trigger]
                model::is_path(t.roots, path) && model::node_at(t.roots, path).hash == hash;
            let descends = exists|path: Seq<int>| #[trigger]
                model::is_path(t.roots, path) && above(model::node_at(t.roots, path).hash, hash);
            r == if known {
                Err::<bool, Error<E>>(Error::Duplicate)
            } else {
                Ok::<bool, Error<E>>(!descends)
            }
        }),
{
    let d = truthful::truth::<H, E>(above);
    if exists|path: Seq<int>| #[trigger]
        model::is_path(t.roots, path) && model::node_at(t.roots, path).hash == hash {
        let path = choose|path: Seq<int>| #[trigger]
            model::is_path(t.roots, path) && model::node_at(t.roots, path).hash == hash;
        truthful::law_no_second_import::<H, N, V, E>(t, path, data, above, number);
    } else {
        truthful::lemma_absent(t.roots, hash);
        truthful::law_mirror_fits::<H, N, V, E>(t.roots, hash, above, number);
        searching::law_import_below_deepest_ancestor(t.roots, hash, number(hash), d);
    }
}

/// Finalizing a root by its hash alone takes the first root with that hash: its
/// children become the roots and its number the finalized one. Without such a
/// root there is nothing to finalize.
pub proof fn law_finalize_root_exact<H: PartialEq, N, V>(t: Forest<H, N, V>, hash: H, i: int)
    requires
        0 <= i <= t.roots.len(),
        i < t.roots.len() ==> t.roots[i].hash.is_eq(&hash),
        forall|j: int| 0 <= j < i ==> !(#[trigger] t.roots[j]).hash.is_eq(&hash),
    ensures
        i < t.roots.len() ==> finalization::first_with_hash(t.roots, 0, hash) == Some(i),
        i < t.roots.len() ==> finalization::opened(t, i).roots == t.roots[i].children,
        i < t.roots.len() ==> finalization::opened(t, i).best_finalized_number == Some(
            t.roots[i].number,
        ),
        i == t.roots.len() ==> finalization::first_with_hash(t.roots, 0, hash) == None::<int>,
{
    if i < t.roots.len() {
        answers::lemma_first_with_hash_is(t.roots, 0, hash, i);
    } else {
        answers::lemma_no_hash(t.roots, hash);
    }
}

/// An error of the client is passed on as what the client said, whatever that
/// is: two errors become the same one only if they are the same.
pub proof fn law_client_error_is_kept<E>(a: E, b: E)
    ensures
        Error::<E>::from_spec(a) == Error::Client(a),
        Error::<E>::from_spec(a) == Error::<E>::from_spec(b) ==> a == b,
{
}

} // verus!
