//! Rebalancing only reorders siblings, and puts the highest branches first.

use vstd::prelude::*;

use crate::balance;
use crate::contents;
use crate::finalization;
use crate::model;
use crate::model::{Branch, Forest};
use crate::placement;
use crate::placement::Placement;
use crate::search;

verus! {

/// No branch comes before one that ranks above it.
pub open spec fn descending<H, N, V>(bs: Seq<Branch<H, N, V>>) -> bool {
    forall|i: int, j: int|
        0 <= i < j < bs.len() ==> balance::rank(#[trigger] bs[i]) >= balance::rank(
            #[trigger] bs[j],
        )
}

/// No sibling, on any level, comes before one that ranks above it.
pub open spec fn balanced<H, N, V>(bs: Seq<Branch<H, N, V>>) -> bool
    decreases bs,
{
    &&& descending(bs)
    &&& forall|i: int| 0 <= i < bs.len() ==> balanced((#[trigger] bs[i]).children)
}

/// Rebalancing changes neither which nodes there are nor what they hold.
pub proof fn law_rebalance_keeps_nodes<H, N, V>(bs: Seq<Branch<H, N, V>>)
    ensures
        contents::contents(balance::rebalanced_all(bs)) == contents::contents(bs),
{
    contents::lemma_contents_rebalanced_all(bs);
}

/// One more branch raises the height to its own if it is higher.
proof fn lemma_height_push<H, N, V>(bs: Seq<Branch<H, N, V>>, b: Branch<H, N, V>)
    ensures
        model::height_all(bs.push(b)) == vstd::math::max(
            model::height_all(bs) as int,
            model::height(b) as int,
        ),
{
    assert(bs.push(b).drop_last() =~= bs);
    assert(bs.push(b).last() == b);
}

/// Putting a branch among others gives the height of the higher of the two.
proof fn lemma_height_slot_in<H, N, V>(bs: Seq<Branch<H, N, V>>, b: Branch<H, N, V>)
    ensures
        model::height_all(balance::slot_in(bs, b)) == model::height_all(bs.push(b)),
    decreases bs.len(),
{
    if !(bs.len() == 0 || balance::rank(bs.last()) >= balance::rank(b)) {
        let rest = bs.drop_last();
        lemma_height_slot_in(rest, b);
        lemma_height_push(rest, b);
        lemma_height_push(balance::slot_in(rest, b), bs.last());
        lemma_height_push(rest, bs.last());
        lemma_height_push(bs, b);
        assert(rest.push(bs.last()) =~= bs);
    }
}

/// Putting branches in order keeps the height of the highest.
proof fn lemma_height_ordered<H, N, V>(bs: Seq<Branch<H, N, V>>)
    ensures
        model::height_all(balance::ordered(bs)) == model::height_all(bs),
    decreases bs.len(),
{
    if bs.len() > 0 {
        let sorted = balance::ordered(bs.drop_last());
        lemma_height_ordered(bs.drop_last());
        lemma_height_slot_in(sorted, bs.last());
        lemma_height_push(sorted, bs.last());
    }
}

/// The height of the highest branch depends on the heights only.
proof fn lemma_height_same<H, N, V>(a: Seq<Branch<H, N, V>>, b: Seq<Branch<H, N, V>>)
    requires
        a.len() == b.len(),
        forall|i: int| 0 <= i < a.len() ==> model::height(#[trigger] a[i]) == model::height(b[i]),
    ensures
        model::height_all(a) == model::height_all(b),
    decreases a.len(),
{
    if a.len() > 0 {
        assert(model::height(a[a.len() - 1]) == model::height(b[a.len() - 1]));
        assert forall|i: int| 0 <= i < a.drop_last().len() implies model::height(
            #[trigger] a.drop_last()[i],
        ) == model::height(b.drop_last()[i]) by {
            assert(model::height(a[i]) == model::height(b[i]));
        }
        lemma_height_same(a.drop_last(), b.drop_last());
    }
}

/// Rebalancing keeps the height of every branch.
pub proof fn law_rebalance_keeps_height<H, N, V>(b: Branch<H, N, V>)
    ensures
        model::height(balance::rebalanced(b)) == model::height(b),
    decreases b,
{
    let each = balance::rebalanced_each(b.children);
    assert forall|i: int| 0 <= i < each.len() implies model::height(#[trigger] each[i])
        == model::height(b.children[i]) by {
        law_rebalance_keeps_height(b.children[i]);
    }
    lemma_height_same(each, b.children);
    lemma_height_ordered(each);
}

/// Putting a branch among branches in order leaves them in order.
proof fn lemma_slot_in_descends<H, N, V>(bs: Seq<Branch<H, N, V>>, b: Branch<H, N, V>)
    requires
        descending(bs),
    ensures
        descending(balance::slot_in(bs, b)),
        balance::slot_in(bs, b).len() == bs.len() + 1,
        forall|i: int|
            0 <= i < balance::slot_in(bs, b).len() ==> #[trigger] balance::slot_in(bs, b)[i] == b
                || bs.contains(balance::slot_in(bs, b)[i]),
    decreases bs.len(),
{
    let s = balance::slot_in(bs, b);
    if bs.len() == 0 || balance::rank(bs.last()) >= balance::rank(b) {
        assert forall|i: int| 0 <= i < s.len() implies #[trigger] s[i] == b || bs.contains(
            s[i],
        ) by {
            if i < bs.len() {
                assert(s[i] == bs[i]);
            }
        }
    } else {
        let rest = bs.drop_last();
        let r = balance::slot_in(rest, b);
        assert(descending(rest)) by {
            assert forall|i: int, j: int| 0 <= i < j < rest.len() implies balance::rank(
                #[trigger] rest[i],
            ) >= balance::rank(#[trigger] rest[j]) by {
                assert(rest[i] == bs[i] && rest[j] == bs[j]);
            }
        }
        lemma_slot_in_descends(rest, b);
        assert forall|i: int| 0 <= i < s.len() implies (#[trigger] s[i] == b || bs.contains(s[i]))
            && balance::rank(s[i]) >= balance::rank(bs.last()) by {
            if i < r.len() {
                assert(s[i] == r[i]);
                if r[i] != b {
                    let k = choose|k: int| 0 <= k < rest.len() && rest[k] == r[i];
                    assert(bs[k] == r[i]);
                }
            } else {
                assert(s[i] == bs[bs.len() - 1]);
            }
        }
        assert forall|i: int, j: int| 0 <= i < j < s.len() implies balance::rank(#[trigger] s[i])
            >= balance::rank(#[trigger] s[j]) by {
            if j < r.len() {
                assert(s[i] == r[i] && s[j] == r[j]);
            }
        }
    }
}

/// Branches that are put in order are in order.
pub proof fn lemma_ordered_descends<H, N, V>(bs: Seq<Branch<H, N, V>>)
    ensures
        descending(balance::ordered(bs)),
        balance::ordered(bs).len() == bs.len(),
        forall|i: int|
            0 <= i < balance::ordered(bs).len() ==> bs.contains(
                #[trigger] balance::ordered(bs)[i],
            ),
    decreases bs.len(),
{
    if bs.len() > 0 {
        let rest = bs.drop_last();
        lemma_ordered_descends(rest);
        lemma_slot_in_descends(balance::ordered(rest), bs.last());
        let s = balance::ordered(bs);
        assert forall|i: int| 0 <= i < s.len() implies bs.contains(#[trigger] s[i]) by {
            if s[i] != bs.last() {
                let r = balance::ordered(rest);
                let k = choose|k: int| 0 <= k < r.len() && r[k] == s[i];
                assert(rest.contains(r[k]));
                let l = choose|l: int| 0 <= l < rest.len() && rest[l] == s[i];
                assert(bs[l] == s[i]);
            } else {
                assert(bs[bs.len() - 1] == s[i]);
            }
        }
    }
}

/// After rebalancing, the siblings on every level are in the order of
/// decreasing height.
pub proof fn law_rebalance_balances<H, N, V>(bs: Seq<Branch<H, N, V>>)
    ensures
        balanced(balance::rebalanced_all(bs)),
    decreases bs,
{
    let each = balance::rebalanced_each(bs);
    let s = balance::rebalanced_all(bs);
    lemma_ordered_descends(each);
    assert forall|i: int| 0 <= i < s.len() implies balanced((#[trigger] s[i]).children) by {
        assert(each.contains(s[i]));
        let k = choose|k: int| 0 <= k < each.len() && each[k] == s[i];
        law_rebalance_balances(bs[k].children);
    }
}

/// In balanced branches whose heights fit a machine integer, no sibling comes
/// before a higher one.
pub proof fn law_balanced_by_height<H, N, V>(bs: Seq<Branch<H, N, V>>, i: int, j: int)
    requires
        balanced(bs),
        0 <= i < j < bs.len(),
        model::height(bs[i]) <= usize::MAX,
        model::height(bs[j]) <= usize::MAX,
    ensures
        model::height(bs[i]) >= model::height(bs[j]),
{
    assert(balance::rank(bs[i]) >= balance::rank(bs[j]));
}

/// Branches in order stay as they are.
proof fn lemma_ordered_keeps<H, N, V>(bs: Seq<Branch<H, N, V>>)
    requires
        descending(bs),
    ensures
        balance::ordered(bs) == bs,
    decreases bs.len(),
{
    if bs.len() > 0 {
        let rest = bs.drop_last();
        assert forall|i: int, j: int| 0 <= i < j < rest.len() implies balance::rank(
            #[trigger] rest[i],
        ) >= balance::rank(#[trigger] rest[j]) by {
            assert(rest[i] == bs[i] && rest[j] == bs[j]);
        }
        lemma_ordered_keeps(rest);
        if rest.len() > 0 {
            assert(balance::rank(bs[bs.len() - 2]) >= balance::rank(bs[bs.len() - 1]));
        }
        assert(rest.push(bs.last()) =~= bs);
    }
}

/// Rebalancing does nothing to what is balanced.
pub proof fn law_rebalance_keeps_balanced<H, N, V>(bs: Seq<Branch<H, N, V>>)
    requires
        balanced(bs),
    ensures
        balance::rebalanced_all(bs) == bs,
    decreases bs,
{
    let each = balance::rebalanced_each(bs);
    assert forall|i: int| 0 <= i < bs.len() implies each[i] == bs[i] by {
        assert(balanced(bs[i].children));
        law_rebalance_keeps_balanced(bs[i].children);
    }
    assert(each =~= bs);
    lemma_ordered_keeps(bs);
}

/// Rebalancing twice is the same as rebalancing once.
pub proof fn law_rebalance_idempotent<H, N, V>(bs: Seq<Branch<H, N, V>>)
    ensures
        balance::rebalanced_all(balance::rebalanced_all(bs)) == balance::rebalanced_all(bs),
{
    law_rebalance_balances(bs);
    law_rebalance_keeps_balanced(balance::rebalanced_all(bs));
}

/// Putting a branch in keeps the order of all branches of one rank, with the
/// new branch last among its own.
proof fn lemma_slot_in_stable<H, N, V>(bs: Seq<Branch<H, N, V>>, b: Branch<H, N, V>, k: nat)
    requires
        descending(bs),
    ensures
        balance::slot_in(bs, b).filter(|c: Branch<H, N, V>| balance::rank(c) == k) == bs.push(
            b,
        ).filter(|c: Branch<H, N, V>| balance::rank(c) == k),
    decreases bs.len(),
{
    let same = |c: Branch<H, N, V>| balance::rank(c) == k;
    if !(bs.len() == 0 || balance::rank(bs.last()) >= balance::rank(b)) {
        let rest = bs.drop_last();
        let last = bs.last();
        assert forall|i: int, j: int| 0 <= i < j < rest.len() implies balance::rank(
            #[trigger] rest[i],
        ) >= balance::rank(#[trigger] rest[j]) by {
            assert(rest[i] == bs[i] && rest[j] == bs[j]);
        }
        lemma_slot_in_stable(rest, b, k);
        rest.lemma_filter_push(b, same);
        rest.lemma_filter_push(last, same);
        bs.lemma_filter_push(b, same);
        balance::slot_in(rest, b).lemma_filter_push(last, same);
        assert(rest.push(last) =~= bs);
    }
}

/// Putting branches in order keeps the order of all branches of one rank.
proof fn lemma_ordered_stable<H, N, V>(bs: Seq<Branch<H, N, V>>, k: nat)
    ensures
        balance::ordered(bs).filter(|c: Branch<H, N, V>| balance::rank(c) == k) == bs.filter(
            |c: Branch<H, N, V>| balance::rank(c) == k,
        ),
    decreases bs.len(),
{
    let same = |c: Branch<H, N, V>| balance::rank(c) == k;
    if bs.len() > 0 {
        let rest = bs.drop_last();
        let sorted = balance::ordered(rest);
        lemma_ordered_stable(rest, k);
        lemma_ordered_descends(rest);
        lemma_slot_in_stable(sorted, bs.last(), k);
        sorted.lemma_filter_push(bs.last(), same);
        rest.lemma_filter_push(bs.last(), same);
        assert(rest.push(bs.last()) =~= bs);
    }
}

/// Rebalancing keeps the order of siblings of the same height.
pub proof fn law_rebalance_stable<H, N, V>(bs: Seq<Branch<H, N, V>>, k: nat)
    ensures
        balance::rebalanced_all(bs).filter(|c: Branch<H, N, V>| balance::rank(c) == k)
            == balance::rebalanced_each(bs).filter(
            |c: Branch<H, N, V>| balance::rank(c) == k,
        ),
{
    lemma_ordered_stable(balance::rebalanced_each(bs), k);
}

/// After a successful import, and after pruning at a node, siblings are in
/// order of decreasing height.
pub proof fn law_changes_leave_balanced<H: PartialEq, N: Ord, V, E>(
    t: Forest<H, N, V>,
    hash: H,
    number: N,
    data: V,
    d: spec_fn(H, H) -> Result<bool, E>,
    q: spec_fn(V) -> bool,
)
    ensures
        placement::imported(t, hash, number, data, d) matches (after, Ok(_)) ==> balanced(
            after.roots,
        ),
        search::find(t.roots, 0, hash, number, d, q) matches Ok(Some(_)) ==> balanced(
            finalization::pruned(t, hash, number, d, q).0.roots,
        ),
{
    let node = model::leaf(hash, number, data);
    match placement::place_all(t.roots, 0, hash, number, d) {
        Placement::Under(path) => {
            law_rebalance_balances(placement::grafted(t.roots, path, node));
        },
        Placement::Nowhere => {
            law_rebalance_balances(t.roots.push(node));
        },
        Placement::Fails(_) => {},
    }
    match search::find(t.roots, 0, hash, number, d, q) {
        Ok(Some(path)) => {
            let b = model::node_at(t.roots, path);
            let root = finalization::inherited(
                b,
                finalization::heir(b.children, 0, hash, number, d),
            );
            law_rebalance_balances(seq![root]);
            balance::lemma_rebalanced_one(root);
        },
        _ => {},
    }
}

} // verus!
