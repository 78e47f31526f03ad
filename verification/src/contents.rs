//! What a tree holds, whatever the order of its nodes.

use vstd::multiset::Multiset;
use vstd::prelude::*;

use crate::balance;
use crate::finalization;
use crate::model;
use crate::model::Branch;
use crate::placement;

verus! {

/// The parts of all nodes at or below the given branches.
pub open spec fn contents<H, N, V>(bs: Seq<Branch<H, N, V>>) -> Multiset<(H, N, V)> {
    model::entries(model::walk_all(bs)).to_multiset()
}

/// The parts of all nodes at or below `b`.
pub open spec fn contents_of<H, N, V>(b: Branch<H, N, V>) -> Multiset<(H, N, V)> {
    contents(b.children).insert(model::entry(b))
}

/// The parts of several sequences of nodes.
pub proof fn lemma_entries_add<H, N, V>(a: Seq<Branch<H, N, V>>, b: Seq<Branch<H, N, V>>)
    ensures
        model::entries(a + b) == model::entries(a) + model::entries(b),
        model::entries(a + b).to_multiset() == model::entries(a).to_multiset().add(
            model::entries(b).to_multiset(),
        ),
{
    assert(model::entries(a + b) =~= model::entries(a) + model::entries(b));
    vstd::seq_lib::lemma_multiset_commutative(model::entries(a), model::entries(b));
}

/// Several sequences of branches hold together what each holds.
pub proof fn lemma_contents_add<H, N, V>(a: Seq<Branch<H, N, V>>, b: Seq<Branch<H, N, V>>)
    ensures
        contents(a + b) == contents(a).add(contents(b)),
{
    model::lemma_walk_all_add(a, b);
    lemma_entries_add(model::walk_all(a), model::walk_all(b));
}

/// What a single branch holds.
pub proof fn lemma_contents_one<H, N, V>(b: Branch<H, N, V>)
    ensures
        contents(seq![b]) == contents_of(b),
        model::entries(model::walk(b)).to_multiset() == contents_of(b),
{
    model::lemma_walk_one(b);
    lemma_entries_add(seq![b], model::walk_all(b.children));
    let e = model::entry(b);
    assert(model::entries(seq![b]) =~= seq![e]);
    assert(seq![e] =~= Seq::empty().push(e));
    vstd::seq_lib::to_multiset_build(Seq::<(H, N, V)>::empty(), e);
    Seq::<(H, N, V)>::empty().to_multiset_ensures();
    assert(Seq::<(H, N, V)>::empty().to_multiset() =~= Multiset::empty());
    assert(contents_of(b) =~= Multiset::empty().insert(e).add(contents(b.children)));
}

/// No branches hold nothing.
pub proof fn lemma_contents_empty<H, N, V>()
    ensures
        contents(Seq::<Branch<H, N, V>>::empty()) == Multiset::<(H, N, V)>::empty(),
{
    let none = Seq::<Branch<H, N, V>>::empty();
    assert(model::walk_all(none) =~= none);
    assert(model::entries(none) =~= Seq::empty());
    Seq::<(H, N, V)>::empty().to_multiset_ensures();
    assert(Seq::<(H, N, V)>::empty().to_multiset() =~= Multiset::empty());
}

/// One more branch at the end.
pub proof fn lemma_contents_push<H, N, V>(bs: Seq<Branch<H, N, V>>, b: Branch<H, N, V>)
    ensures
        contents(bs.push(b)) == contents(bs).add(contents_of(b)),
{
    assert(bs.push(b) =~= bs + seq![b]);
    lemma_contents_add(bs, seq![b]);
    lemma_contents_one(b);
}

/// One branch less.
pub proof fn lemma_contents_remove<H, N, V>(bs: Seq<Branch<H, N, V>>, i: int)
    requires
        0 <= i < bs.len(),
    ensures
        contents(bs) == contents(bs.remove(i)).add(contents_of(bs[i])),
{
    let a = bs.take(i);
    let z = bs.skip(i + 1);
    assert(bs =~= a + seq![bs[i]] + z);
    assert(bs.remove(i) =~= a + z);
    lemma_contents_add(a + seq![bs[i]], z);
    lemma_contents_add(a, seq![bs[i]]);
    lemma_contents_add(a, z);
    lemma_contents_one(bs[i]);
    assert(contents(bs) =~= contents(bs.remove(i)).add(contents_of(bs[i])));
}

/// One branch in place of another.
pub proof fn lemma_contents_update<H, N, V>(
    bs: Seq<Branch<H, N, V>>,
    i: int,
    b: Branch<H, N, V>,
)
    requires
        0 <= i < bs.len(),
    ensures
        contents(bs.update(i, b)) == contents(bs.remove(i)).add(contents_of(b)),
{
    lemma_contents_remove(bs.update(i, b), i);
    assert(bs.update(i, b).remove(i) =~= bs.remove(i));
}

/// A walk that starts with the last branch meets the same nodes.
pub proof fn lemma_contents_back<H, N, V>(bs: Seq<Branch<H, N, V>>)
    ensures
        model::entries(model::walk_back(bs)).to_multiset() == contents(bs),
    decreases bs.len(),
{
    if bs.len() == 0 {
        assert(model::walk_back(bs) =~= model::walk_all(bs));
    } else {
        let b = bs.last();
        let rest = bs.drop_last();
        lemma_contents_back(rest);
        lemma_entries_add(model::walk(b), model::walk_back(rest));
        lemma_contents_one(b);
        lemma_contents_push(rest, b);
        assert(rest.push(b) =~= bs);
        assert(contents_of(b).add(contents(rest)) =~= contents(rest).add(contents_of(b)));
    }
}

/// Putting branches in order keeps what they hold.
pub proof fn lemma_contents_ordered<H, N, V>(bs: Seq<Branch<H, N, V>>)
    ensures
        contents(balance::ordered(bs)) == contents(bs),
    decreases bs.len(),
{
    if bs.len() > 0 {
        lemma_contents_ordered(bs.drop_last());
        lemma_contents_slot_in(balance::ordered(bs.drop_last()), bs.last());
        lemma_contents_push(bs.drop_last(), bs.last());
        assert(bs.drop_last().push(bs.last()) =~= bs);
    }
}

/// Putting a branch among others adds what it holds.
pub proof fn lemma_contents_slot_in<H, N, V>(bs: Seq<Branch<H, N, V>>, b: Branch<H, N, V>)
    ensures
        contents(balance::slot_in(bs, b)) == contents(bs).add(contents_of(b)),
    decreases bs.len(),
{
    if bs.len() == 0 || balance::rank(bs.last()) >= balance::rank(b) {
        lemma_contents_push(bs, b);
    } else {
        let rest = bs.drop_last();
        lemma_contents_slot_in(rest, b);
        lemma_contents_push(balance::slot_in(rest, b), bs.last());
        lemma_contents_push(rest, bs.last());
        assert(rest.push(bs.last()) =~= bs);
        assert(contents(rest).add(contents_of(b)).add(contents_of(bs.last())) =~= contents(
            rest,
        ).add(contents_of(bs.last())).add(contents_of(b)));
    }
}

/// Rebalancing keeps what a branch holds.
pub proof fn lemma_contents_rebalanced<H, N, V>(b: Branch<H, N, V>)
    ensures
        contents_of(balance::rebalanced(b)) == contents_of(b),
    decreases b, 0int,
{
    lemma_contents_rebalanced_all(b.children);
}

/// Rebalancing keeps what branches hold.
pub proof fn lemma_contents_rebalanced_all<H, N, V>(bs: Seq<Branch<H, N, V>>)
    ensures
        contents(balance::rebalanced_all(bs)) == contents(bs),
    decreases bs, bs.len() + 1,
{
    lemma_contents_rebalanced_each(bs, bs.len() as int);
    assert(bs.take(bs.len() as int) =~= bs);
    assert(balance::rebalanced_each(bs).take(bs.len() as int) =~= balance::rebalanced_each(bs));
    lemma_contents_ordered(balance::rebalanced_each(bs));
}

/// Rebalancing keeps what each of the first `n` branches holds.
proof fn lemma_contents_rebalanced_each<H, N, V>(bs: Seq<Branch<H, N, V>>, n: int)
    requires
        0 <= n <= bs.len(),
    ensures
        contents(balance::rebalanced_each(bs).take(n)) == contents(bs.take(n)),
    decreases bs, n,
{
    let each = balance::rebalanced_each(bs);
    if n == 0 {
        assert(each.take(0) =~= bs.take(0));
    } else {
        lemma_contents_rebalanced_each(bs, n - 1);
        lemma_contents_rebalanced(bs[n - 1]);
        lemma_contents_push(each.take(n - 1), each[n - 1]);
        lemma_contents_push(bs.take(n - 1), bs[n - 1]);
        assert(each.take(n - 1).push(each[n - 1]) =~= each.take(n));
        assert(bs.take(n - 1).push(bs[n - 1]) =~= bs.take(n));
    }
}

/// Putting a node in place of another one exchanges what they hold.
pub proof fn lemma_contents_put<H, N, V>(
    bs: Seq<Branch<H, N, V>>,
    path: Seq<int>,
    b: Branch<H, N, V>,
)
    requires
        model::is_path(bs, path),
    ensures
        contents(model::put_at(bs, path, b)).add(contents_of(model::node_at(bs, path)))
            == contents(bs).add(contents_of(b)),
    decreases path.len(),
{
    let i = path.last();
    let top = bs[i];
    lemma_contents_remove(bs, i);
    let rest = contents(bs.remove(i));
    if path.len() <= 1 {
        lemma_contents_update(bs, i, b);
        assert(rest.add(contents_of(b)).add(contents_of(top)) =~= rest.add(contents_of(top)).add(
            contents_of(b),
        ));
    } else {
        let below = path.drop_last();
        let new_top = Branch { children: model::put_at(top.children, below, b), ..top };
        lemma_contents_put(top.children, below, b);
        lemma_contents_update(bs, i, new_top);
        let e = model::entry(top);
        let node = contents_of(model::node_at(bs, path));
        assert(rest.add(contents(new_top.children).insert(e)).add(node) =~= rest.add(
            contents(new_top.children).add(node).insert(e),
        ));
        assert(rest.add(contents(top.children).insert(e)).add(contents_of(b)) =~= rest.add(
            contents(top.children).add(contents_of(b)).insert(e),
        ));
    }
}

/// What is cut out is what is missing.
pub proof fn lemma_contents_cut<H, N, V>(bs: Seq<Branch<H, N, V>>, path: Seq<int>)
    requires
        model::is_path(bs, path),
    ensures
        contents(bs) == contents(model::cut_at(bs, path)).add(
            contents_of(model::node_at(bs, path)),
        ),
    decreases path.len(),
{
    let i = path.last();
    let top = bs[i];
    lemma_contents_remove(bs, i);
    if path.len() > 1 {
        let rest = contents(bs.remove(i));
        let below = path.drop_last();
        let new_top = Branch { children: model::cut_at(top.children, below), ..top };
        lemma_contents_cut(top.children, below);
        lemma_contents_update(bs, i, new_top);
        let e = model::entry(top);
        let node = contents_of(model::node_at(bs, path));
        assert(rest.add(contents(new_top.children).add(node).insert(e)) =~= rest.add(
            contents(new_top.children).insert(e),
        ).add(node));
    }
}

/// A new child adds what it holds.
pub proof fn lemma_contents_grafted<H, N, V>(
    bs: Seq<Branch<H, N, V>>,
    path: Seq<int>,
    c: Branch<H, N, V>,
)
    requires
        model::is_path(bs, path),
    ensures
        contents(placement::grafted(bs, path, c)) == contents(bs).add(contents_of(c)),
{
    let old_node = model::node_at(bs, path);
    let new_node = model::with_child(old_node, c);
    lemma_contents_put(bs, path, new_node);
    lemma_contents_push(old_node.children, c);
    let e = model::entry(old_node);
    assert(contents_of(new_node) =~= contents_of(old_node).add(contents_of(c)));
    let after = contents(placement::grafted(bs, path, c));
    assert(after.add(contents_of(old_node)) =~= contents(bs).add(contents_of(c)).add(
        contents_of(old_node),
    ));
    assert(after =~= after.add(contents_of(old_node)).sub(contents_of(old_node)));
    assert(contents(bs).add(contents_of(c)) =~= contents(bs).add(contents_of(c)).add(
        contents_of(old_node),
    ).sub(contents_of(old_node)));
}

/// What a leaf holds.
pub proof fn lemma_contents_leaf<H, N, V>(hash: H, number: N, data: V)
    ensures
        contents_of(model::leaf(hash, number, data)) == Multiset::singleton((hash, number, data)),
{
    lemma_contents_empty::<H, N, V>();
    assert(contents_of(model::leaf(hash, number, data)) =~= Multiset::singleton(
        (hash, number, data),
    ));
}

/// What the new root keeps and what leaves with the other nodes is all that
/// the tree held.
pub proof fn lemma_contents_pruned<H, N, V>(
    bs: Seq<Branch<H, N, V>>,
    path: Seq<int>,
    heir: Option<int>,
)
    requires
        model::is_path(bs, path),
        heir matches Some(k) ==> 0 <= k < model::node_at(bs, path).children.len(),
    ensures
        ({
            let b = model::node_at(bs, path);
            let removed = model::cut_at(bs, path) + finalization::disowned(b, heir);
            contents(bs) == contents(
                seq![balance::rebalanced(finalization::inherited(b, heir))],
            ).add(model::entries(model::walk_back(removed)).to_multiset())
        }),
{
    let b = model::node_at(bs, path);
    let root = finalization::inherited(b, heir);
    let rest = finalization::disowned(b, heir);
    let cut = model::cut_at(bs, path);
    lemma_contents_cut(bs, path);
    lemma_contents_back(cut + rest);
    lemma_contents_add(cut, rest);
    lemma_contents_one(balance::rebalanced(root));
    lemma_contents_rebalanced(root);
    lemma_contents_empty::<H, N, V>();
    if let Some(k) = heir {
        lemma_contents_remove(b.children, k);
        lemma_contents_one(b.children[k]);
    }
    assert(contents(b.children) =~= contents(root.children).add(
        contents(rest),
    ));
    let e = model::entry(b);
    assert(contents(cut).add(contents(b.children).insert(e))
        =~= contents(root.children).insert(e).add(
        contents(cut).add(contents(rest)),
    ));
}

/// What is held without the `i`-th branch.
pub proof fn lemma_contents_swap_removed<H, N, V>(bs: Seq<Branch<H, N, V>>, i: int)
    requires
        0 <= i < bs.len(),
    ensures
        contents(bs) == contents(finalization::swap_removed(bs, i)).add(
            contents_of(bs[i]),
        ),
{
    let last = bs.len() - 1;
    let less = finalization::swap_removed(bs, i);
    lemma_contents_remove(bs, last);
    assert(bs.remove(last) =~= bs.drop_last());
    if i < last {
        lemma_contents_remove(bs.drop_last(), i);
        lemma_contents_update(bs.drop_last(), i, bs.last());
        assert(less =~= bs.drop_last().update(i, bs.last()));
        let rest = contents(bs.drop_last().remove(i));
        let a = contents_of(bs[i]);
        let z = contents_of(bs.last());
        assert(rest.add(a).add(z) =~= rest.add(z).add(a));
    } else {
        assert(less =~= bs.drop_last());
    }
}

/// The children of a branch hold no more than all branches together.
pub proof fn lemma_contents_children<H, N, V>(bs: Seq<Branch<H, N, V>>, i: int)
    requires
        0 <= i < bs.len(),
    ensures
        contents(bs[i].children).subset_of(contents(bs)),
{
    lemma_contents_remove(bs, i);
}

} // verus!
