//! Every node is visited once, ahead of its descendants, and mapping the
//! values of a tree leaves everything else in place.

use vstd::prelude::*;

use crate::balance;
use crate::laws::balancing;
use crate::model;
use crate::model::Branch;

verus! {

/// When an iteration visits the node at `path`: after all nodes of the branches
/// before its own and, if it is not the first of its branch, after that one and
/// the nodes before it below that one.
pub open spec fn turn<H, N, V>(bs: Seq<Branch<H, N, V>>, path: Seq<int>) -> int
    recommends
        model::is_path(bs, path),
    decreases path.len(),
{
    let before = model::walk_all(bs.take(path.last())).len();
    if path.len() <= 1 {
        before as int
    } else {
        before + 1 + turn(bs[path.last()].children, path.drop_last())
    }
}

/// Some node is visited at that turn.
pub open spec fn is_turn<H, N, V>(bs: Seq<Branch<H, N, V>>, i: int) -> bool {
    exists|path: Seq<int>| #[trigger] model::is_path(bs, path) && turn(bs, path) == i
}

/// A walk through the first branches, and what comes after it.
proof fn lemma_walk_split<H, N, V>(bs: Seq<Branch<H, N, V>>, k: int)
    requires
        0 <= k < bs.len(),
    ensures
        model::walk_all(bs) == model::walk_all(bs.take(k)) + model::walk(bs[k]) + model::walk_all(
            bs.skip(k + 1),
        ),
        model::walk_all(bs.take(k + 1)) == model::walk_all(bs.take(k)) + model::walk(bs[k]),
{
    let one = seq![bs[k]];
    assert(bs =~= bs.take(k) + one + bs.skip(k + 1));
    assert(bs.take(k + 1) =~= bs.take(k) + one);
    model::lemma_walk_all_add(bs.take(k) + one, bs.skip(k + 1));
    model::lemma_walk_all_add(bs.take(k), one);
    model::lemma_walk_one(bs[k]);
}

/// At its turn the node is visited, within the walk through its branch.
proof fn lemma_turn<H, N, V>(bs: Seq<Branch<H, N, V>>, path: Seq<int>)
    requires
        model::is_path(bs, path),
    ensures
        ({
            let before = model::walk_all(bs.take(path.last())).len();
            before <= turn(bs, path) < before + model::walk(bs[path.last()]).len()
        }),
        turn(bs, path) < model::walk_all(bs).len(),
        model::walk_all(bs)[turn(bs, path)] == model::node_at(bs, path),
    decreases path.len(),
{
    let b = bs[path.last()];
    lemma_walk_split(bs, path.last());
    model::lemma_walk_one(b);
    if path.len() > 1 {
        lemma_turn(b.children, path.drop_last());
    }
}

/// Two nodes are not visited at the same turn.
proof fn lemma_turn_once<H, N, V>(bs: Seq<Branch<H, N, V>>, p: Seq<int>, q: Seq<int>)
    requires
        model::is_path(bs, p),
        model::is_path(bs, q),
        turn(bs, p) == turn(bs, q),
    ensures
        p == q,
    decreases p.len(),
{
    lemma_turn(bs, p);
    lemma_turn(bs, q);
    if p.last() < q.last() {
        lemma_walk_reaches(bs, p.last(), q.last());
    } else if q.last() < p.last() {
        lemma_walk_reaches(bs, q.last(), p.last());
    } else {
        let b = bs[p.last()];
        if p.len() > 1 {
            lemma_turn(b.children, p.drop_last());
        }
        if q.len() > 1 {
            lemma_turn(b.children, q.drop_last());
        }
        if p.len() > 1 && q.len() > 1 {
            lemma_turn_once(b.children, p.drop_last(), q.drop_last());
        }
        assert(p.drop_last() =~= q.drop_last());
        assert(p =~= p.drop_last().push(p.last()));
        assert(q =~= q.drop_last().push(q.last()));
    }
}

/// A walk up to a later branch goes through an earlier one.
proof fn lemma_walk_reaches<H, N, V>(bs: Seq<Branch<H, N, V>>, i: int, j: int)
    requires
        0 <= i < j < bs.len(),
    ensures
        model::walk_all(bs.take(i)).len() + model::walk(bs[i]).len() <= model::walk_all(
            bs.take(j),
        ).len(),
{
    lemma_walk_split(bs.take(j), i);
    assert(bs.take(j).take(i) =~= bs.take(i));
}

/// At every turn some node is visited.
proof fn lemma_turn_taken<H, N, V>(bs: Seq<Branch<H, N, V>>, i: int) -> (path: Seq<int>)
    requires
        0 <= i < model::walk_all(bs).len(),
    ensures
        model::is_path(bs, path),
        turn(bs, path) == i,
    decreases bs, bs.len(),
{
    let last = bs.len() - 1;
    lemma_walk_split(bs, last);
    assert(bs.skip(last + 1) =~= Seq::empty());
    let before = model::walk_all(bs.take(last)).len();
    if i < before {
        let path = lemma_turn_taken(bs.take(last), i);
        lemma_turn_prefix(bs, last, path);
        path
    } else if i == before {
        seq![last]
    } else {
        model::lemma_walk_one(bs[last]);
        let below = lemma_turn_taken(bs[last].children, i - before - 1);
        let path = below.push(last);
        assert(path.drop_last() =~= below);
        path
    }
}

/// The turn of a node does not depend on the branches after its own.
proof fn lemma_turn_prefix<H, N, V>(bs: Seq<Branch<H, N, V>>, k: int, path: Seq<int>)
    requires
        0 <= k <= bs.len(),
        model::is_path(bs.take(k), path),
    ensures
        model::is_path(bs, path),
        turn(bs, path) == turn(bs.take(k), path),
{
    assert(bs.take(k).take(path.last()) =~= bs.take(path.last()));
    assert(bs.take(k)[path.last()] == bs[path.last()]);
}

/// An iteration visits every node of the tree exactly once: each node has its
/// turn, no two have the same, and there is no turn without a node.
pub proof fn law_iter_visits_all<H, N, V>(bs: Seq<Branch<H, N, V>>)
    ensures
        forall|path: Seq<int>| #[trigger]
            model::is_path(bs, path) ==> 0 <= turn(bs, path) < model::walk_all(bs).len()
                && model::walk_all(bs)[turn(bs, path)] == model::node_at(bs, path),
        forall|p: Seq<int>, q: Seq<int>|
            #![trigger turn(bs, p), turn(bs, q)]
            model::is_path(bs, p) && model::is_path(bs, q) && turn(bs, p) == turn(bs, q) ==> p == q,
        forall|i: int| 0 <= i < model::walk_all(bs).len() ==> #[trigger] is_turn(bs, i),
{
    assert forall|path: Seq<int>| #[trigger] model::is_path(bs, path) implies 0 <= turn(bs, path)
        < model::walk_all(bs).len() && model::walk_all(bs)[turn(bs, path)] == model::node_at(
        bs,
        path,
    ) by {
        lemma_turn(bs, path);
    }
    assert forall|p: Seq<int>, q: Seq<int>|
        #![trigger turn(bs, p), turn(bs, q)]
        model::is_path(bs, p) && model::is_path(bs, q) && turn(bs, p) == turn(bs, q) implies p
        == q by {
        lemma_turn_once(bs, p, q);
    }
    assert forall|i: int| 0 <= i < model::walk_all(bs).len() implies #[trigger] is_turn(bs, i) by {
        let path = lemma_turn_taken(bs, i);
        assert(model::is_path(bs, path));
    }
}

/// An iteration visits the roots in their order, each with all that is below
/// it: the first root and its branch come first.
pub proof fn law_iter_roots_in_order<H, N, V>(bs: Seq<Branch<H, N, V>>, k: int)
    requires
        0 <= k < bs.len(),
    ensures
        model::walk_all(bs) == model::walk_all(bs.take(k)) + model::walk(bs[k]) + model::walk_all(
            bs.skip(k + 1),
        ),
{
    lemma_walk_split(bs, k);
}

/// After rebalancing, an iteration explores the longest forks first: of two
/// roots, and of two siblings on any level, the one that comes first is not
/// the root of the shorter fork.
pub proof fn law_iter_longest_first<H, N, V>(bs: Seq<Branch<H, N, V>>, i: int, j: int)
    requires
        0 <= i < j < bs.len(),
    ensures
        ({
            let after = balance::rebalanced_all(bs);
            &&& balancing::balanced(after)
            &&& after.len() == bs.len()
            &&& balance::rank(after[i]) >= balance::rank(after[j])
            &&& model::walk_all(after) == model::walk_all(after.take(i)) + model::walk(after[i])
                + model::walk_all(after.subrange(i + 1, j)) + model::walk(after[j])
                + model::walk_all(after.skip(j + 1))
        }),
{
    let after = balance::rebalanced_all(bs);
    balancing::law_rebalance_balances(bs);
    balancing::lemma_ordered_descends(balance::rebalanced_each(bs));
    law_iter_roots_in_order(after, i);
    let rest = after.skip(i + 1);
    law_iter_roots_in_order(rest, j - i - 1);
    assert(rest.take(j - i - 1) =~= after.subrange(i + 1, j));
    assert(rest.skip(j - i) =~= after.skip(j + 1));
    let front = model::walk_all(after.take(i)) + model::walk(after[i]);
    assert(model::walk_all(after) =~= front + model::walk_all(after.subrange(i + 1, j))
        + model::walk(after[j]) + model::walk_all(after.skip(j + 1)));
}

/// The `i`-th node is followed directly by all of its descendants.
pub open spec fn leads_descendants<H, N, V>(nodes: Seq<Branch<H, N, V>>, i: int) -> bool {
    let below = model::walk(nodes[i]);
    i + below.len() <= nodes.len() && nodes.subrange(i, i + below.len()) == below
}

/// Nodes of two walks are followed by their descendants if each walk is
/// ordered that way.
proof fn lemma_leads_add<H, N, V>(a: Seq<Branch<H, N, V>>, b: Seq<Branch<H, N, V>>, i: int)
    requires
        0 <= i < a.len() ==> leads_descendants(a, i),
        a.len() <= i < a.len() + b.len() ==> leads_descendants(b, i - a.len()),
        0 <= i < a.len() + b.len(),
    ensures
        leads_descendants(a + b, i),
{
    let all = a + b;
    let below = model::walk(all[i]);
    if i < a.len() {
        assert(all[i] == a[i]);
        assert(all.subrange(i, i + below.len()) =~= a.subrange(i, i + below.len()));
    } else {
        let j = i - a.len();
        assert(all[i] == b[j]);
        assert(all.subrange(i, i + below.len()) =~= b.subrange(j, j + below.len()));
    }
}

/// A node of a pre-order walk is followed by its descendants.
proof fn lemma_walk_leads<H, N, V>(b: Branch<H, N, V>, i: int)
    requires
        0 <= i < model::walk(b).len(),
    ensures
        leads_descendants(model::walk(b), i),
    decreases b, 0int,
{
    let nodes = model::walk(b);
    if i == 0 {
        assert(nodes[0] == b);
        assert(nodes.subrange(0, nodes.len() as int) =~= nodes);
    } else {
        let below = model::walk_all(b.children);
        law_iter_parents_first(b.children, i - 1);
        assert(nodes =~= seq![b] + below);
        lemma_leads_add(seq![b], below, i);
    }
}

/// An iteration visits every node before its descendants, and all of these
/// before any other node.
pub proof fn law_iter_parents_first<H, N, V>(bs: Seq<Branch<H, N, V>>, i: int)
    requires
        0 <= i < model::walk_all(bs).len(),
    ensures
        leads_descendants(model::walk_all(bs), i),
    decreases bs, 1int,
{
    let first = model::walk(bs[0]);
    let rest = model::walk_all(bs.drop_first());
    if i < first.len() {
        lemma_walk_leads(bs[0], i);
    } else {
        law_iter_parents_first(bs.drop_first(), i - first.len());
    }
    lemma_leads_add(first, rest, i);
}

/// `b` with `g` applied to every node for a new value.
pub open spec fn mapped<H, N, V, VT>(
    b: Branch<H, N, V>,
    g: spec_fn(H, N, V) -> VT,
) -> Branch<H, N, VT>
    decreases b,
{
    Branch {
        hash: b.hash,
        number: b.number,
        data: g(b.hash, b.number, b.data),
        children: Seq::new(
            b.children.len(),
            |i: int|
                if 0 <= i < b.children.len() {
                    mapped(b.children[i], g)
                } else {
                    arbitrary()
                },
        ),
    }
}

/// Mapping with a function of the node gives exactly what that function gives
/// for each node.
pub proof fn law_map_exact<H, N, V, VT, F: FnMut(&H, &N, V) -> VT>(
    f: F,
    g: spec_fn(H, N, V) -> VT,
    b: Branch<H, N, V>,
    c: Branch<H, N, VT>,
)
    requires
        model::mapped_by(f, b, c),
        forall|h: H, n: N, v: V, r: VT| #[trigger]
            call_ensures(f, (&h, &n, v), r) ==> r == g(h, n, v),
    ensures
        c == mapped(b, g),
    decreases b,
{
    assert forall|i: int| 0 <= i < b.children.len() implies #[trigger] c.children[i]
        == mapped(b, g).children[i] by {
        assert(model::mapped_by(f, b.children[i], c.children[i]));
        law_map_exact(f, g, b.children[i], c.children[i]);
    }
    assert(c.children =~= mapped(b, g).children);
}

/// Mapping keeps the shape of the tree: the same paths lead to nodes with the
/// same hashes and numbers, and every branch is as high as before.
pub proof fn law_map_keeps_shape<H, N, V, VT>(
    b: Branch<H, N, V>,
    g: spec_fn(H, N, V) -> VT,
    path: Seq<int>,
)
    ensures
        model::height(mapped(b, g)) == model::height(b),
        model::is_path_from(mapped(b, g), path) == model::is_path_from(b, path),
        model::is_path_from(b, path) ==> model::node_from(mapped(b, g), path) == mapped(
            model::node_from(b, path),
            g,
        ),
    decreases b,
{
    let c = mapped(b, g);
    lemma_map_keeps_height(b, g, b.children.len() as int);
    assert(b.children.take(b.children.len() as int) =~= b.children);
    assert(c.children.take(c.children.len() as int) =~= c.children);
    if path.len() > 0 && 0 <= path.last() < b.children.len() {
        let child = b.children[path.last()];
        assert(c.children[path.last()] == mapped(child, g));
        law_map_keeps_shape(child, g, path.drop_last());
    }
}

/// Mapping keeps the height of the first `n` children.
proof fn lemma_map_keeps_height<H, N, V, VT>(
    b: Branch<H, N, V>,
    g: spec_fn(H, N, V) -> VT,
    n: int,
)
    requires
        0 <= n <= b.children.len(),
    ensures
        model::height_all(mapped(b, g).children.take(n)) == model::height_all(b.children.take(n)),
    decreases b, n,
{
    if n > 0 {
        let child = b.children[n - 1];
        let old_part = b.children.take(n);
        let new_part = mapped(b, g).children.take(n);
        lemma_map_keeps_height(b, g, n - 1);
        lemma_map_keeps_height(child, g, child.children.len() as int);
        assert(child.children.take(child.children.len() as int) =~= child.children);
        assert(mapped(child, g).children.take(child.children.len() as int) =~= mapped(
            child,
            g,
        ).children);
        assert(old_part.drop_last() =~= b.children.take(n - 1));
        assert(new_part.drop_last() =~= mapped(b, g).children.take(n - 1));
        assert(old_part.last() == child);
        assert(new_part.last() == mapped(child, g));
        assert(model::height(child) == 1 + model::height_all(child.children));
        assert(model::height(mapped(child, g)) == 1 + model::height_all(
            mapped(child, g).children,
        ));
    }
}

/// Mapping every value to itself changes nothing.
pub proof fn law_map_identity<H, N, V>(b: Branch<H, N, V>)
    ensures
        mapped(b, |h: H, n: N, v: V| v) == b,
    decreases b,
{
    let g = |h: H, n: N, v: V| v;
    assert forall|i: int| 0 <= i < b.children.len() implies #[trigger] mapped(b, g).children[i]
        == b.children[i] by {
        law_map_identity(b.children[i]);
    }
    assert(mapped(b, g).children =~= b.children);
}

} // verus!
