//! What holds as long as the client tells the truth: there is one ancestry
//! behind all of its answers, and nodes are imported after their ancestors.

use vstd::prelude::*;
use vstd::std_specs::cmp::{PartialEqIs, PartialEqSpec, PartialOrdIs};

use crate::balance;
use crate::error::Error;
use crate::finalization;
use crate::laws::searching;
use crate::model;
use crate::model::{Branch, Forest};
use crate::placement;
use crate::placement::Placement;
use crate::search;
use crate::trail;

verus! {

/// `above` is the ancestry of blocks with one parent each, and `number` counts
/// up along it: an ancestor of an ancestor is an ancestor, no block is its own
/// ancestor, of two ancestors of one block one is an ancestor of the other,
/// and an ancestor has a lower number.
pub open spec fn is_ancestry<H, N: Ord>(
    above: spec_fn(H, H) -> bool,
    number: spec_fn(H) -> N,
) -> bool {
    &&& forall|a: H, b: H, c: H| #[trigger]
        above(a, b) && #[trigger] above(b, c) ==> above(a, c)
    &&& forall|a: H| !#[trigger] above(a, a)
    &&& forall|a: H, b: H, c: H| #[trigger]
        above(a, c) && #[trigger] above(b, c) ==> a == b || above(a, b) || above(b, a)
    &&& forall|a: H, b: H| #[trigger] above(a, b) ==> number(a).is_lt(&number(b))
}

/// The answers of a client that knows the ancestry.
pub open spec fn truth<H, E>(above: spec_fn(H, H) -> bool) -> spec_fn(H, H) -> Result<bool, E> {
    |a: H, b: H| Ok(above(a, b))
}

/// Hashes compare equal only if they are the same.
pub open spec fn exact_hashes<H: PartialEq>() -> bool {
    forall|a: H, b: H| #![trigger a.eq_spec(&b)] a.is_eq(&b) == (a == b)
}

/// Neither of two branches is, or is an ancestor of, the other.
pub open spec fn unrelated<H, N, V>(
    a: Branch<H, N, V>,
    b: Branch<H, N, V>,
    above: spec_fn(H, H) -> bool,
) -> bool {
    a.hash != b.hash && !above(a.hash, b.hash) && !above(b.hash, a.hash)
}

/// The branch shows the ancestry of its nodes.
pub open spec fn mirrors<H, N, V>(
    b: Branch<H, N, V>,
    above: spec_fn(H, H) -> bool,
    number: spec_fn(H) -> N,
) -> bool
    decreases b,
{
    &&& b.number == number(b.hash)
    &&& forall|i: int| 0 <= i < b.children.len() ==> above(b.hash, (#[trigger] b.children[i]).hash)
    &&& mirrors_all(b.children, above, number)
}

/// The branches show the ancestry of their nodes, and none of them is an
/// ancestor of another one.
pub open spec fn mirrors_all<H, N, V>(
    bs: Seq<Branch<H, N, V>>,
    above: spec_fn(H, H) -> bool,
    number: spec_fn(H) -> N,
) -> bool
    decreases bs,
{
    &&& forall|i: int| 0 <= i < bs.len() ==> mirrors(#[trigger] bs[i], above, number)
    &&& forall|i: int, j: int|
        0 <= i < j < bs.len() ==> unrelated(#[trigger] bs[i], #[trigger] bs[j], above)
}

/// A tree that shows the ancestry fits the client's answers about any target.
pub proof fn law_mirror_fits<H, N: Ord, V, E>(
    bs: Seq<Branch<H, N, V>>,
    hash: H,
    above: spec_fn(H, H) -> bool,
    number: spec_fn(H) -> N,
)
    requires
        is_ancestry(above, number),
        mirrors_all(bs, above, number),
    ensures
        searching::fits_all(bs, hash, number(hash), truth::<H, E>(above)),
    decreases bs,
{
    let d = truth::<H, E>(above);
    assert forall|i: int| 0 <= i < bs.len() implies searching::fits(
        #[trigger] bs[i],
        hash,
        number(hash),
        d,
    ) by {
        let b = bs[i];
        assert(mirrors(b, above, number));
        law_mirror_fits::<H, N, V, E>(b.children, hash, above, number);
        if !above(b.hash, hash) {
            assert forall|k: int| 0 <= k < b.children.len() implies !searching::is_ancestor(
                #[trigger] b.children[k],
                hash,
                d,
            ) by {
                assert(above(b.hash, b.children[k].hash));
            }
        }
    }
    assert forall|i: int, j: int| 0 <= i < j < bs.len() implies !(searching::is_ancestor(
        #[trigger] bs[i],
        hash,
        d,
    ) && searching::is_ancestor(#[trigger] bs[j], hash, d)) by {
        assert(unrelated(bs[i], bs[j], above));
    }
}

/// A search finds the deepest ancestor of a block that passes the predicate,
/// and it finds none only if no ancestor passes.
pub proof fn law_find_deepest<H, N: Ord, V, E>(
    bs: Seq<Branch<H, N, V>>,
    hash: H,
    q: spec_fn(V) -> bool,
    above: spec_fn(H, H) -> bool,
    number: spec_fn(H) -> N,
)
    requires
        is_ancestry(above, number),
        searching::strict_numbers::<N>(),
        mirrors_all(bs, above, number),
    ensures
        match search::find(bs, 0, hash, number(hash), truth::<H, E>(above), q) {
            Ok(Some(path)) => {
                &&& model::is_path(bs, path)
                &&& above(model::node_at(bs, path).hash, hash)
                &&& q(model::node_at(bs, path).data)
                &&& forall|p: Seq<int>| #[trigger]
                    model::is_path(bs, p) && above(model::node_at(bs, p).hash, hash) && q(
                        model::node_at(bs, p).data,
                    ) ==> p.len() <= path.len()
            },
            Ok(None) => forall|p: Seq<int>| #[trigger]
                model::is_path(bs, p) && above(model::node_at(bs, p).hash, hash) ==> !q(
                    model::node_at(bs, p).data,
                ),
            Err(_) => false,
        },
{
    let d = truth::<H, E>(above);
    law_mirror_fits::<H, N, V, E>(bs, hash, above, number);
    searching::law_find_deepest_ancestor(bs, hash, number(hash), d, q);
    assert forall|p: Seq<int>| #[trigger]
        model::is_path(bs, p) && above(model::node_at(bs, p).hash, hash) && q(
            model::node_at(bs, p).data,
        ) implies searching::is_candidate(bs, p, hash, d, q) by {}
}

/// Everything below a node descends from it.
pub proof fn lemma_below<H, N: Ord, V>(
    b: Branch<H, N, V>,
    path: Seq<int>,
    above: spec_fn(H, H) -> bool,
    number: spec_fn(H) -> N,
)
    requires
        is_ancestry(above, number),
        mirrors(b, above, number),
        model::is_path_from(b, path),
    ensures
        path.len() > 0 ==> above(b.hash, model::node_from(b, path).hash),
        mirrors(model::node_from(b, path), above, number),
    decreases path.len(),
{
    if path.len() > 0 {
        let child = b.children[path.last()];
        assert(above(b.hash, child.hash));
        lemma_below(child, path.drop_last(), above, number);
    }
}

/// Of two unrelated branches, one has neither a node of the other nor an
/// ancestor of one.
pub proof fn lemma_quiet<H: PartialEq, N: Ord, V, E>(
    b: Branch<H, N, V>,
    c: Branch<H, N, V>,
    hash: H,
    above: spec_fn(H, H) -> bool,
    number: spec_fn(H) -> N,
)
    requires
        is_ancestry(above, number),
        exact_hashes::<H>(),
        mirrors(c, above, number),
        unrelated(b, c, above),
        b.hash == hash || above(b.hash, hash),
    ensures
        searching::quiet(c, hash, truth::<H, E>(above)),
        searching::lacks(c, hash),
    decreases c,
{
    assert(!above(c.hash, hash));
    assert(c.hash.is_eq(&hash) == (c.hash == hash));
    assert forall|i: int| 0 <= i < c.children.len() implies searching::quiet(
        #[trigger] c.children[i],
        hash,
        truth::<H, E>(above),
    ) && searching::lacks(c.children[i], hash) by {
        let x = c.children[i];
        assert(above(c.hash, x.hash));
        assert(mirrors(x, above, number));
        assert(unrelated(b, x, above));
        lemma_quiet::<H, N, V, E>(b, x, hash, above, number);
    }
}

/// Of two branches next to each other neither is related to the other.
pub proof fn lemma_siblings<H, N, V>(
    bs: Seq<Branch<H, N, V>>,
    i: int,
    j: int,
    above: spec_fn(H, H) -> bool,
    number: spec_fn(H) -> N,
)
    requires
        mirrors_all(bs, above, number),
        0 <= i < bs.len(),
        0 <= j < bs.len(),
        i != j,
    ensures
        unrelated(bs[i], bs[j], above),
{
    if i < j {
        assert(unrelated(bs[i], bs[j], above));
    } else {
        assert(unrelated(bs[j], bs[i], above));
    }
}

/// Each node of the tree is uniquely identified by its hash.
pub proof fn law_hash_identifies_node<H, N: Ord, V>(
    bs: Seq<Branch<H, N, V>>,
    p: Seq<int>,
    q: Seq<int>,
    above: spec_fn(H, H) -> bool,
    number: spec_fn(H) -> N,
)
    requires
        is_ancestry(above, number),
        mirrors_all(bs, above, number),
        model::is_path(bs, p),
        model::is_path(bs, q),
        model::node_at(bs, p).hash == model::node_at(bs, q).hash,
    ensures
        p == q,
    decreases p.len(),
{
    let a = bs[p.last()];
    let b = bs[q.last()];
    assert(mirrors(a, above, number));
    assert(mirrors(b, above, number));
    lemma_below(a, p.drop_last(), above, number);
    lemma_below(b, q.drop_last(), above, number);
    if p.last() != q.last() {
        lemma_siblings(bs, p.last(), q.last(), above, number);
    } else {
        if p.len() > 1 && q.len() > 1 {
            law_hash_identifies_node(a.children, p.drop_last(), q.drop_last(), above, number);
        }
        assert(p.drop_last() =~= q.drop_last());
        assert(p =~= p.drop_last().push(p.last()));
        assert(q =~= q.drop_last().push(q.last()));
    }
}

/// A node of the tree stands where the client's answers say it does.
proof fn lemma_stands_at<H: PartialEq, N: Ord, V, E>(
    bs: Seq<Branch<H, N, V>>,
    path: Seq<int>,
    above: spec_fn(H, H) -> bool,
    number: spec_fn(H) -> N,
)
    requires
        is_ancestry(above, number),
        exact_hashes::<H>(),
        mirrors_all(bs, above, number),
        model::is_path(bs, path),
    ensures
        ({
            let hash = model::node_at(bs, path).hash;
            searching::stands_at(bs, path, hash, number(hash), truth::<H, E>(above))
        }),
    decreases path.len(),
{
    let i = path.last();
    let b = bs[i];
    let hash = model::node_at(bs, path).hash;
    let d = truth::<H, E>(above);
    assert(mirrors(b, above, number));
    lemma_below(b, path.drop_last(), above, number);
    assert(b.hash == hash || above(b.hash, hash));
    assert forall|j: int| 0 <= j < bs.len() && j != i implies searching::quiet(
        #[trigger] bs[j],
        hash,
        d,
    ) by {
        lemma_siblings(bs, i, j, above, number);
        lemma_quiet::<H, N, V, E>(b, bs[j], hash, above, number);
    }
    if path.len() > 1 {
        lemma_stands_at::<H, N, V, E>(b.children, path.drop_last(), above, number);
    } else {
        assert(b.hash.is_eq(&hash));
    }
}

/// A node that is in the tree is never imported again.
pub proof fn law_no_second_import<H: PartialEq, N: Ord, V, E>(
    t: Forest<H, N, V>,
    path: Seq<int>,
    data: V,
    above: spec_fn(H, H) -> bool,
    number: spec_fn(H) -> N,
)
    requires
        is_ancestry(above, number),
        exact_hashes::<H>(),
        searching::strict_numbers::<N>(),
        mirrors_all(t.roots, above, number),
        model::is_path(t.roots, path),
    ensures
        ({
            let hash = model::node_at(t.roots, path).hash;
            let (after, r) = placement::imported(
                t,
                hash,
                number(hash),
                data,
                truth::<H, E>(above),
            );
            &&& after == t
            &&& r == Err::<bool, Error<E>>(
                if finalization::reverts(t, number(hash)) {
                    Error::Revert
                } else {
                    Error::Duplicate
                },
            )
        }),
{
    let hash = model::node_at(t.roots, path).hash;
    lemma_stands_at::<H, N, V, E>(t.roots, path, above, number);
    if !finalization::reverts(t, number(hash)) {
        searching::law_import_refuses_duplicate(
            t,
            path,
            hash,
            number(hash),
            data,
            truth::<H, E>(above),
        );
    }
}

/// If no path leads to a hash, the hash is absent.
pub proof fn lemma_absent<H: PartialEq, N, V>(bs: Seq<Branch<H, N, V>>, hash: H)
    requires
        exact_hashes::<H>(),
        forall|path: Seq<int>| #[trigger]
            model::is_path(bs, path) ==> model::node_at(bs, path).hash != hash,
    ensures
        searching::absent(bs, hash),
    decreases bs,
{
    assert forall|i: int| 0 <= i < bs.len() implies !(#[trigger] bs[i]).hash.is_eq(&hash)
        && searching::absent(bs[i].children, hash) by {
        let top = seq![i];
        assert(model::is_path(bs, top));
        assert(model::node_at(bs, top) == bs[i]);
        assert forall|path: Seq<int>| #[trigger]
            model::is_path(bs[i].children, path) implies model::node_at(
            bs[i].children,
            path,
        ).hash != hash by {
            model::lemma_path_below(bs, i, path);
            assert(model::is_path(bs, path.push(i)));
        }
        lemma_absent(bs[i].children, hash);
    }
}

/// A node can be exchanged for one with the same hash.
proof fn lemma_put_mirrors<H, N: Ord, V>(
    bs: Seq<Branch<H, N, V>>,
    path: Seq<int>,
    b: Branch<H, N, V>,
    above: spec_fn(H, H) -> bool,
    number: spec_fn(H) -> N,
)
    requires
        mirrors_all(bs, above, number),
        model::is_path(bs, path),
        mirrors(b, above, number),
        b.hash == model::node_at(bs, path).hash,
    ensures
        mirrors_all(model::put_at(bs, path, b), above, number),
        model::put_at(bs, path, b).len() == bs.len(),
        forall|k: int|
            0 <= k < bs.len() ==> (#[trigger] model::put_at(bs, path, b)[k]).hash == bs[k].hash,
    decreases path.len(),
{
    let i = path.last();
    let after = model::put_at(bs, path, b);
    let top = bs[i];
    assert(mirrors(top, above, number));
    if path.len() > 1 {
        let below = path.drop_last();
        lemma_put_mirrors(top.children, below, b, above, number);
        let children = model::put_at(top.children, below, b);
        assert forall|k: int| 0 <= k < children.len() implies above(
            top.hash,
            (#[trigger] children[k]).hash,
        ) by {
            assert(above(top.hash, top.children[k].hash));
            assert(children[k].hash == top.children[k].hash);
        }
    }
    assert(mirrors(after[i], above, number));
    assert(after[i].hash == top.hash);
    assert forall|k: int| 0 <= k < after.len() implies mirrors(
        #[trigger] after[k],
        above,
        number,
    ) by {
        if k != i {
            assert(after[k] == bs[k]);
        }
    }
    assert forall|k: int, l: int| 0 <= k < l < after.len() implies unrelated(
        #[trigger] after[k],
        #[trigger] after[l],
        above,
    ) by {
        assert(unrelated(bs[k], bs[l], above));
    }
}

/// One more branch can come last if it is not related to the others.
pub proof fn lemma_push_mirrors<H, N: Ord, V>(
    bs: Seq<Branch<H, N, V>>,
    b: Branch<H, N, V>,
    above: spec_fn(H, H) -> bool,
    number: spec_fn(H) -> N,
)
    requires
        mirrors_all(bs, above, number),
        mirrors(b, above, number),
        forall|i: int| 0 <= i < bs.len() ==> unrelated(#[trigger] bs[i], b, above),
    ensures
        mirrors_all(bs.push(b), above, number),
{
    let after = bs.push(b);
    assert forall|k: int, l: int| 0 <= k < l < after.len() implies unrelated(
        #[trigger] after[k],
        #[trigger] after[l],
        above,
    ) by {
        if l < bs.len() {
            assert(unrelated(bs[k], bs[l], above));
        } else {
            assert(unrelated(bs[k], b, above));
        }
    }
}

/// A branch can be taken away from the end.
pub proof fn lemma_drop_last_mirrors<H, N: Ord, V>(
    bs: Seq<Branch<H, N, V>>,
    above: spec_fn(H, H) -> bool,
    number: spec_fn(H) -> N,
)
    requires
        mirrors_all(bs, above, number),
        bs.len() > 0,
    ensures
        mirrors_all(bs.drop_last(), above, number),
        forall|i: int|
            0 <= i < bs.drop_last().len() ==> unrelated(
                #[trigger] bs.drop_last()[i],
                bs.last(),
                above,
            ),
{
    let rest = bs.drop_last();
    assert forall|k: int| 0 <= k < rest.len() implies mirrors(
        #[trigger] rest[k],
        above,
        number,
    ) && unrelated(rest[k], bs.last(), above) by {
        assert(mirrors(bs[k], above, number));
        assert(unrelated(bs[k], bs[bs.len() - 1], above));
    }
    assert forall|k: int, l: int| 0 <= k < l < rest.len() implies unrelated(
        #[trigger] rest[k],
        #[trigger] rest[l],
        above,
    ) by {
        assert(unrelated(bs[k], bs[l], above));
    }
}

/// What holds of each of the branches still does when one more for which it
/// holds is put among them.
proof fn lemma_slot_in_each<H, N, V>(
    bs: Seq<Branch<H, N, V>>,
    b: Branch<H, N, V>,
    p: spec_fn(Branch<H, N, V>) -> bool,
)
    requires
        forall|i: int| 0 <= i < bs.len() ==> p(#[trigger] bs[i]),
        p(b),
    ensures
        forall|i: int|
            0 <= i < balance::slot_in(bs, b).len() ==> p(#[trigger] balance::slot_in(bs, b)[i]),
    decreases bs.len(),
{
    if !(bs.len() == 0 || balance::rank(bs.last()) >= balance::rank(b)) {
        let rest = bs.drop_last();
        assert forall|i: int| 0 <= i < rest.len() implies p(#[trigger] rest[i]) by {
            assert(p(bs[i]));
        }
        assert(p(bs[bs.len() - 1]));
        lemma_slot_in_each(rest, b, p);
        let s = balance::slot_in(rest, b);
        assert forall|i: int| 0 <= i < s.push(bs.last()).len() implies p(
            #[trigger] s.push(bs.last())[i],
        ) by {
            if i < s.len() {
                assert(p(s[i]));
            }
        }
    }
}

/// What holds of each of the branches still does when they are put in order.
proof fn lemma_ordered_each<H, N, V>(
    bs: Seq<Branch<H, N, V>>,
    p: spec_fn(Branch<H, N, V>) -> bool,
)
    requires
        forall|i: int| 0 <= i < bs.len() ==> p(#[trigger] bs[i]),
    ensures
        forall|i: int|
            0 <= i < balance::ordered(bs).len() ==> p(#[trigger] balance::ordered(bs)[i]),
    decreases bs.len(),
{
    if bs.len() > 0 {
        let rest = bs.drop_last();
        assert forall|i: int| 0 <= i < rest.len() implies p(#[trigger] rest[i]) by {
            assert(p(bs[i]));
        }
        lemma_ordered_each(rest, p);
        assert(p(bs[bs.len() - 1]));
        lemma_slot_in_each(balance::ordered(rest), bs.last(), p);
    }
}

/// A branch can be put among others that it is not related to.
proof fn lemma_slot_in_mirrors<H, N: Ord, V>(
    bs: Seq<Branch<H, N, V>>,
    b: Branch<H, N, V>,
    above: spec_fn(H, H) -> bool,
    number: spec_fn(H) -> N,
)
    requires
        mirrors_all(bs, above, number),
        mirrors(b, above, number),
        forall|i: int| 0 <= i < bs.len() ==> unrelated(#[trigger] bs[i], b, above),
    ensures
        mirrors_all(balance::slot_in(bs, b), above, number),
    decreases bs.len(),
{
    if bs.len() == 0 || balance::rank(bs.last()) >= balance::rank(b) {
        lemma_push_mirrors(bs, b, above, number);
    } else {
        let rest = bs.drop_last();
        let last = bs.last();
        let apart = |x: Branch<H, N, V>| unrelated(x, last, above);
        lemma_drop_last_mirrors(bs, above, number);
        assert forall|i: int| 0 <= i < rest.len() implies unrelated(
            #[trigger] rest[i],
            b,
            above,
        ) by {
            assert(unrelated(bs[i], b, above));
        }
        lemma_slot_in_mirrors(rest, b, above, number);
        assert(unrelated(bs[bs.len() - 1], b, above));
        assert(mirrors(bs[bs.len() - 1], above, number));
        lemma_slot_in_each(rest, b, apart);
        let s = balance::slot_in(rest, b);
        assert forall|i: int| 0 <= i < s.len() implies unrelated(#[trigger] s[i], last, above) by {
            assert(apart(s[i]));
        }
        lemma_push_mirrors(s, last, above, number);
    }
}

/// Branches can be put in order.
proof fn lemma_ordered_mirrors<H, N: Ord, V>(
    bs: Seq<Branch<H, N, V>>,
    above: spec_fn(H, H) -> bool,
    number: spec_fn(H) -> N,
)
    requires
        mirrors_all(bs, above, number),
    ensures
        mirrors_all(balance::ordered(bs), above, number),
    decreases bs.len(),
{
    if bs.len() > 0 {
        let rest = bs.drop_last();
        let last = bs.last();
        let s = balance::ordered(rest);
        let apart = |x: Branch<H, N, V>| unrelated(x, last, above);
        lemma_drop_last_mirrors(bs, above, number);
        lemma_ordered_mirrors(rest, above, number);
        lemma_ordered_each(rest, apart);
        assert(mirrors(bs[bs.len() - 1], above, number));
        assert forall|i: int| 0 <= i < s.len() implies unrelated(#[trigger] s[i], last, above) by {
            assert(apart(s[i]));
        }
        lemma_slot_in_mirrors(s, last, above, number);
    }
}

/// Rebalancing keeps what a tree shows of the ancestry.
pub proof fn law_rebalance_keeps_mirror<H, N: Ord, V>(
    bs: Seq<Branch<H, N, V>>,
    above: spec_fn(H, H) -> bool,
    number: spec_fn(H) -> N,
)
    requires
        mirrors_all(bs, above, number),
    ensures
        mirrors_all(balance::rebalanced_all(bs), above, number),
    decreases bs,
{
    let each = balance::rebalanced_each(bs);
    assert forall|i: int| 0 <= i < each.len() implies mirrors(
        #[trigger] each[i],
        above,
        number,
    ) by {
        lemma_rebalanced_mirrors(bs, i, above, number);
    }
    assert forall|i: int, j: int| 0 <= i < j < each.len() implies unrelated(
        #[trigger] each[i],
        #[trigger] each[j],
        above,
    ) by {
        assert(unrelated(bs[i], bs[j], above));
    }
    lemma_ordered_mirrors(each, above, number);
}

/// Rebalancing keeps what one of the branches shows of the ancestry.
proof fn lemma_rebalanced_mirrors<H, N: Ord, V>(
    bs: Seq<Branch<H, N, V>>,
    i: int,
    above: spec_fn(H, H) -> bool,
    number: spec_fn(H) -> N,
)
    requires
        mirrors_all(bs, above, number),
        0 <= i < bs.len(),
    ensures
        mirrors(balance::rebalanced(bs[i]), above, number),
    decreases bs[i],
{
    let b = bs[i];
    assert(mirrors(b, above, number));
    law_rebalance_keeps_mirror(b.children, above, number);
    let each = balance::rebalanced_each(b.children);
    assert forall|k: int| 0 <= k < each.len() implies above(b.hash, (#[trigger] each[k]).hash) by {
        assert(above(b.hash, b.children[k].hash));
    }
    let below = |x: Branch<H, N, V>| above(b.hash, x.hash);
    lemma_ordered_each(each, below);
    let after = balance::rebalanced_all(b.children);
    assert forall|k: int| 0 <= k < after.len() implies above(b.hash, (#[trigger] after[k]).hash) by {
        assert(below(after[k]));
    }
}

/// No node of the branches descends from the given hash.
pub open spec fn comes_after<H, N, V>(
    bs: Seq<Branch<H, N, V>>,
    hash: H,
    above: spec_fn(H, H) -> bool,
) -> bool {
    forall|path: Seq<int>| #[trigger]
        model::is_path(bs, path) ==> !above(hash, model::node_at(bs, path).hash)
}

/// As long as every node is imported after its ancestors, the tree shows the
/// ancestry of its nodes.
pub proof fn law_import_keeps_mirror<H: PartialEq, N: Ord, V, E>(
    t: Forest<H, N, V>,
    hash: H,
    data: V,
    above: spec_fn(H, H) -> bool,
    number: spec_fn(H) -> N,
)
    requires
        is_ancestry(above, number),
        exact_hashes::<H>(),
        searching::strict_numbers::<N>(),
        mirrors_all(t.roots, above, number),
        comes_after(t.roots, hash, above),
    ensures
        mirrors_all(
            placement::imported(t, hash, number(hash), data, truth::<H, E>(above)).0.roots,
            above,
            number,
        ),
{
    let d = truth::<H, E>(above);
    let node = model::leaf(hash, number(hash), data);
    let bs = t.roots;
    assert(mirrors(node, above, number)) by {
        assert(mirrors_all(node.children, above, number));
    }
    if exists|path: Seq<int>| #[trigger]
        model::is_path(bs, path) && model::node_at(bs, path).hash == hash {
        let path = choose|path: Seq<int>| #[trigger]
            model::is_path(bs, path) && model::node_at(bs, path).hash == hash;
        law_no_second_import::<H, N, V, E>(t, path, data, above, number);
    } else if !finalization::reverts(t, number(hash)) {
        lemma_absent(bs, hash);
        law_mirror_fits::<H, N, V, E>(bs, hash, above, number);
        searching::law_import_below_deepest_ancestor(bs, hash, number(hash), d);
        match placement::place_all(bs, 0, hash, number(hash), d) {
            Placement::Under(path) => {
                let parent = model::node_at(bs, path);
                assert(mirrors(bs[path.last()], above, number));
                lemma_below(bs[path.last()], path.drop_last(), above, number);
                assert(mirrors(parent, above, number));
                assert forall|k: int| 0 <= k < parent.children.len() implies unrelated(
                    #[trigger] parent.children[k],
                    node,
                    above,
                ) by {
                    trail::lemma_prolong_all(bs, path, k);
                    assert(model::is_path(bs, seq![k] + path));
                    assert((seq![k] + path).len() > path.len());
                }
                lemma_push_mirrors(parent.children, node, above, number);
                let grown = model::with_child(parent, node);
                assert forall|k: int| 0 <= k < grown.children.len() implies above(
                    grown.hash,
                    (#[trigger] grown.children[k]).hash,
                ) by {
                    if k < parent.children.len() {
                        assert(above(parent.hash, parent.children[k].hash));
                    }
                }
                assert(mirrors(grown, above, number));
                lemma_put_mirrors(bs, path, grown, above, number);
                law_rebalance_keeps_mirror(placement::grafted(bs, path, node), above, number);
            },
            Placement::Nowhere => {
                assert forall|k: int| 0 <= k < bs.len() implies unrelated(
                    #[trigger] bs[k],
                    node,
                    above,
                ) by {
                    assert(model::is_path(bs, seq![k]));
                    assert(model::node_at(bs, seq![k]) == bs[k]);
                }
                lemma_push_mirrors(bs, node, above, number);
                law_rebalance_keeps_mirror(bs.push(node), above, number);
            },
            Placement::Fails(_) => {},
        }
    }
}

} // verus!
