//! The order of siblings: the highest branches come first.

use vstd::prelude::*;

use crate::model;
use crate::model::Branch;

verus! {

/// A number as a machine integer, which cannot tell numbers apart that are
/// too large for it.
pub open spec fn capped(n: nat) -> nat {
    if n <= usize::MAX {
        n
    } else {
        usize::MAX as nat
    }
}

/// What branches are ordered by: their height, as far as a machine integer
/// can hold it.
pub open spec fn rank<H, N, V>(b: Branch<H, N, V>) -> nat {
    capped(model::height(b))
}

/// `b` put among branches which are in order, after all that do not rank
/// below it.
pub open spec fn slot_in<H, N, V>(bs: Seq<Branch<H, N, V>>, b: Branch<H, N, V>) -> Seq<
    Branch<H, N, V>,
>
    decreases bs.len(),
{
    if bs.len() == 0 || rank(bs.last()) >= rank(b) {
        bs.push(b)
    } else {
        slot_in(bs.drop_last(), b).push(bs.last())
    }
}

/// The given branches with the highest first. Branches of the same height
/// keep their order.
pub open spec fn ordered<H, N, V>(bs: Seq<Branch<H, N, V>>) -> Seq<Branch<H, N, V>>
    decreases bs.len(),
{
    if bs.len() == 0 {
        bs
    } else {
        slot_in(ordered(bs.drop_last()), bs.last())
    }
}

/// `b` with the siblings on every level below it in order.
pub open spec fn rebalanced<H, N, V>(b: Branch<H, N, V>) -> Branch<H, N, V>
    decreases b, 0int,
{
    Branch { children: rebalanced_all(b.children), ..b }
}

/// The given branches, each with the siblings on every level below it in
/// order.
pub open spec fn rebalanced_each<H, N, V>(bs: Seq<Branch<H, N, V>>) -> Seq<Branch<H, N, V>>
    decreases bs, 0int,
{
    Seq::new(
        bs.len(),
        |i: int|
            if 0 <= i < bs.len() {
                rebalanced(bs[i])
            } else {
                arbitrary()
            },
    )
}

/// The given branches in order, and in each of them the siblings on every
/// level.
pub open spec fn rebalanced_all<H, N, V>(bs: Seq<Branch<H, N, V>>) -> Seq<Branch<H, N, V>>
    decreases bs, 1int,
{
    ordered(rebalanced_each(bs))
}

/// `b` goes right before the branches at the end that rank below it.
pub proof fn lemma_slot_in<H, N, V>(bs: Seq<Branch<H, N, V>>, b: Branch<H, N, V>, j: int)
    requires
        0 <= j <= bs.len(),
        forall|k: int| j <= k < bs.len() ==> rank(#[trigger] bs[k]) < rank(b),
        j > 0 ==> rank(bs[j - 1]) >= rank(b),
    ensures
        slot_in(bs, b) == bs.insert(j, b),
    decreases bs.len(),
{
    if j == bs.len() {
        assert(bs.insert(j, b) =~= bs.push(b));
    } else {
        assert(rank(bs[bs.len() - 1]) < rank(b));
        lemma_slot_in(bs.drop_last(), b, j);
        assert(bs.drop_last().insert(j, b).push(bs.last()) =~= bs.insert(j, b));
    }
}

/// There is nothing to put in order about one branch by itself.
pub proof fn lemma_rebalanced_one<H, N, V>(b: Branch<H, N, V>)
    ensures
        rebalanced_all(seq![b]) == seq![rebalanced(b)],
{
    let each = rebalanced_each(seq![b]);
    assert(each =~= seq![rebalanced(b)]);
    assert(each.drop_last() =~= Seq::empty());
    assert(ordered(each.drop_last()) =~= Seq::empty());
    assert(slot_in(Seq::empty(), rebalanced(b)) =~= seq![rebalanced(b)]);
}

} // verus!
