//! What the depth of a branch is, and that rebalancing is a reordering of
//! siblings by it.

use vstd::prelude::*;

use crate::balance;
use crate::laws::balancing;
use crate::model;
use crate::model::Branch;

verus! {

/// No branch is higher than the highest.
proof fn lemma_height_all_bounds<H, N, V>(bs: Seq<Branch<H, N, V>>, i: int)
    requires
        0 <= i < bs.len(),
    ensures
        model::height(bs[i]) <= model::height_all(bs),
    decreases bs.len(),
{
    if i < bs.len() - 1 {
        lemma_height_all_bounds(bs.drop_last(), i);
        assert(bs.drop_last()[i] == bs[i]);
    }
}

/// One of the branches is as high as the highest.
proof fn lemma_height_all_attained<H, N, V>(bs: Seq<Branch<H, N, V>>) -> (i: int)
    requires
        bs.len() > 0,
    ensures
        0 <= i < bs.len(),
        model::height(bs[i]) == model::height_all(bs),
    decreases bs.len(),
{
    let rest = bs.drop_last();
    let last = bs.len() - 1;
    if rest.len() == 0 || model::height(bs.last()) > model::height_all(rest) {
        assert(model::height(bs.last()) > 0);
        last
    } else {
        let i = lemma_height_all_attained(rest);
        assert(rest[i] == bs[i]);
        i
    }
}

/// No path from a branch is longer than the branch is high.
proof fn lemma_path_within_height<H, N, V>(b: Branch<H, N, V>, path: Seq<int>)
    requires
        model::is_path_from(b, path),
    ensures
        path.len() + 1 <= model::height(b),
    decreases path.len(),
{
    if path.len() > 0 {
        lemma_path_within_height(b.children[path.last()], path.drop_last());
        lemma_height_all_bounds(b.children, path.last());
    }
}

/// Some path from a branch is as long as the branch is high.
proof fn lemma_longest_path<H, N, V>(b: Branch<H, N, V>) -> (path: Seq<int>)
    ensures
        model::is_path_from(b, path),
        path.len() + 1 == model::height(b),
    decreases b,
{
    if b.children.len() == 0 {
        Seq::empty()
    } else {
        let i = lemma_height_all_attained(b.children);
        let below = lemma_longest_path(b.children[i]);
        let path = below.push(i);
        assert(path.drop_last() =~= below);
        path
    }
}

/// The depth of a branch is the number of nodes on its longest path, as far as
/// a machine integer can hold it: no path has more nodes, and some path has as
/// many.
pub proof fn law_depth_is_longest_path<H, N, V>(b: Branch<H, N, V>)
    ensures
        balance::rank(b) <= usize::MAX,
        balance::rank(b) < usize::MAX ==> forall|path: Seq<int>| #[trigger]
            model::is_path_from(b, path) ==> path.len() + 1 <= balance::rank(b),
        exists|path: Seq<int>| #[trigger]
            model::is_path_from(b, path) && (path.len() + 1 == balance::rank(b) || balance::rank(b)
                == usize::MAX && path.len() + 1 > usize::MAX),
{
    assert forall|path: Seq<int>| #[trigger] model::is_path_from(b, path) implies path.len() + 1
        <= model::height(b) by {
        lemma_path_within_height(b, path);
    }
    let path = lemma_longest_path(b);
    assert(model::is_path_from(b, path));
}

/// The nodes right below the one at `path`, or all roots if the path is empty.
pub open spec fn siblings_at<H, N, V>(bs: Seq<Branch<H, N, V>>, path: Seq<int>) -> Seq<
    Branch<H, N, V>,
> {
    if path.len() == 0 {
        bs
    } else {
        model::node_at(bs, path).children
    }
}

/// After rebalancing no sibling, on any level, comes before one with a longer
/// path: for every path from a later root there is one from each earlier root
/// that is at least as long, and the same holds of all siblings below.
pub proof fn law_rebalance_longest_first<H, N, V>(
    bs: Seq<Branch<H, N, V>>,
    above: Seq<int>,
    i: int,
    j: int,
    path: Seq<int>,
)
    requires
        ({
            let after = balance::rebalanced_all(bs);
            let siblings = siblings_at(after, above);
            &&& above.len() > 0 ==> model::is_path(after, above)
            &&& 0 <= i < j < siblings.len()
            &&& model::is_path_from(siblings[j], path)
            &&& path.len() + 1 <= usize::MAX
        }),
    ensures
        ({
            let after = balance::rebalanced_all(bs);
            let siblings = siblings_at(after, above);
            exists|p: Seq<int>| #[trigger]
                model::is_path_from(siblings[i], p) && p.len() >= path.len()
        }),
{
    let after = balance::rebalanced_all(bs);
    balancing::law_rebalance_balances(bs);
    if above.len() > 0 {
        lemma_balanced_at(after, above);
    }
    let siblings = siblings_at(after, above);
    lemma_path_within_height(siblings[j], path);
    let p = lemma_longest_path(siblings[i]);
    assert(balance::rank(siblings[i]) >= balance::rank(siblings[j]));
    assert(model::is_path_from(siblings[i], p));
}

/// In a balanced tree the children of every node are balanced.
proof fn lemma_balanced_at<H, N, V>(bs: Seq<Branch<H, N, V>>, path: Seq<int>)
    requires
        balancing::balanced(bs),
        model::is_path(bs, path),
    ensures
        balancing::balanced(model::node_at(bs, path).children),
    decreases path.len(),
{
    assert(balancing::balanced(bs[path.last()].children));
    if path.len() > 1 {
        lemma_balanced_at(bs[path.last()].children, path.drop_last());
    }
}

/// Putting a branch among others adds that branch.
proof fn lemma_slot_in_adds<H, N, V>(bs: Seq<Branch<H, N, V>>, b: Branch<H, N, V>)
    ensures
        balance::slot_in(bs, b).to_multiset() == bs.to_multiset().insert(b),
    decreases bs.len(),
{
    broadcast use vstd::seq_lib::group_to_multiset_ensures;

    if !(bs.len() == 0 || balance::rank(bs.last()) >= balance::rank(b)) {
        let rest = bs.drop_last();
        lemma_slot_in_adds(rest, b);
        assert(rest.push(bs.last()) =~= bs);
        assert(rest.to_multiset().insert(b).insert(bs.last()) =~= rest.to_multiset().insert(
            bs.last(),
        ).insert(b));
    }
}

/// Putting branches in order keeps every one of them.
proof fn lemma_ordered_permutes<H, N, V>(bs: Seq<Branch<H, N, V>>)
    ensures
        balance::ordered(bs).to_multiset() == bs.to_multiset(),
    decreases bs.len(),
{
    broadcast use vstd::seq_lib::group_to_multiset_ensures;

    if bs.len() > 0 {
        let rest = bs.drop_last();
        lemma_ordered_permutes(rest);
        lemma_slot_in_adds(balance::ordered(rest), bs.last());
        assert(rest.push(bs.last()) =~= bs);
    }
}

/// Rebalancing reorders siblings and does nothing else: each node keeps its
/// hash, its number and its data, the children of each node are rebalanced
/// below that same node, and no sibling is lost or added.
pub proof fn law_rebalance_reorders<H, N, V>(bs: Seq<Branch<H, N, V>>, b: Branch<H, N, V>)
    ensures
        balance::rebalanced(b).hash == b.hash,
        balance::rebalanced(b).number == b.number,
        balance::rebalanced(b).data == b.data,
        balance::rebalanced(b).children == balance::rebalanced_all(b.children),
        balance::rebalanced_all(bs).to_multiset() == bs.map_values(
            |c: Branch<H, N, V>| balance::rebalanced(c),
        ).to_multiset(),
        balance::rebalanced_all(bs).len() == bs.len(),
{
    let each = balance::rebalanced_each(bs);
    assert(each =~= bs.map_values(|c: Branch<H, N, V>| balance::rebalanced(c)));
    lemma_ordered_permutes(each);
    balancing::lemma_ordered_descends(each);
}

/// Rebalancing keeps the order of siblings whose longest paths are equally
/// long.
pub proof fn law_rebalance_keeps_ties<H, N, V>(bs: Seq<Branch<H, N, V>>, depth: nat)
    requires
        depth < usize::MAX,
    ensures
        ({
            let as_deep = |c: Branch<H, N, V>| model::height(c) == depth;
            balance::rebalanced_all(bs).filter(as_deep) == bs.map_values(
                |c: Branch<H, N, V>| balance::rebalanced(c),
            ).filter(as_deep)
        }),
{
    let as_deep = |c: Branch<H, N, V>| model::height(c) == depth;
    let as_ranked = |c: Branch<H, N, V>| balance::rank(c) == depth;
    assert(as_deep =~= as_ranked);
    balancing::law_rebalance_stable(bs, depth);
    assert(balance::rebalanced_each(bs) =~= bs.map_values(
        |c: Branch<H, N, V>| balance::rebalanced(c),
    ));
}

} // verus!
