//! What putting a node in its place, taking one out, copying and handing out
//! nodes do to a tree, node by node.

use vstd::prelude::*;
use vstd::std_specs::cmp::{PartialEqIs, PartialOrdIs};

use crate::error::Error;
use crate::finalization;
use crate::model;
use crate::model::{Branch, Forest};
use crate::node;
use crate::search;

verus! {

/// The way to `p` leads through `path`, or ends there.
pub open spec fn runs_through(p: Seq<int>, path: Seq<int>) -> bool {
    p.len() >= path.len() && p.skip(p.len() - path.len()) == path
}

/// Putting a node in the place of another one changes that place and what is
/// below it. The nodes above keep all but that one descendant, and every other
/// node stays as it is.
pub proof fn law_put_changes_place_only<H, N, V>(
    bs: Seq<Branch<H, N, V>>,
    path: Seq<int>,
    b: Branch<H, N, V>,
    p: Seq<int>,
)
    requires
        model::is_path(bs, path),
    ensures
        ({
            let after = model::put_at(bs, path, b);
            let below = p.take(p.len() - path.len());
            &&& after.len() == bs.len()
            &&& runs_through(p, path) ==> {
                &&& model::is_path(after, p) == model::is_path_from(b, below)
                &&& model::node_at(after, p) == model::node_from(b, below)
            }
            &&& !runs_through(p, path) ==> model::is_path(after, p) == model::is_path(bs, p)
            &&& model::is_path(bs, p) && !runs_through(p, path) && !runs_through(path, p)
                ==> model::node_at(after, p) == model::node_at(bs, p)
            &&& model::is_path(bs, p) && !runs_through(p, path) && runs_through(path, p) ==> {
                &&& model::node_at(after, p).hash == model::node_at(bs, p).hash
                &&& model::node_at(after, p).number == model::node_at(bs, p).number
                &&& model::node_at(after, p).data == model::node_at(bs, p).data
                &&& model::node_at(after, p).children.len() == model::node_at(bs, p).children.len()
            }
        }),
    decreases path.len(),
{
    let after = model::put_at(bs, path, b);
    let i = path.last();
    if p.len() > 0 {
        if runs_through(p, path) {
            assert(p.skip(p.len() - path.len()).last() == p.last());
        }
        if runs_through(path, p) {
            assert(path.skip(path.len() - p.len()).last() == path.last());
        }
        if p.last() != i {
            if 0 <= p.last() < bs.len() {
                assert(after[p.last()] == bs[p.last()]);
            }
            assert(model::is_path(after, p) == model::is_path(bs, p));
        } else {
            if path.len() == 1 {
                assert(p.skip(p.len() - 1) =~= path);
                assert(p.take(p.len() - 1) =~= p.drop_last());
            } else if p.len() == 1 {
                assert(path.skip(path.len() - 1) =~= p);
                law_put_changes_place_only(bs[i].children, path.drop_last(), b, p);
            } else {
                let top = bs[i];
                let up = p.drop_last();
                let way = path.drop_last();
                law_put_changes_place_only(top.children, way, b, up);
                lemma_runs_through(p, path);
                lemma_runs_through(path, p);
                if p.len() >= path.len() {
                    assert(up.take(up.len() - way.len()) =~= p.take(p.len() - path.len()));
                }
                assert(after[i].children == model::put_at(top.children, way, b));
            }
        }
    }
}

/// Whether a way leads through another one does not depend on where both
/// begin.
proof fn lemma_runs_through(p: Seq<int>, path: Seq<int>)
    requires
        p.len() > 1,
        path.len() > 1,
        p.last() == path.last(),
    ensures
        runs_through(p, path) == runs_through(p.drop_last(), path.drop_last()),
{
    if p.len() >= path.len() {
        let k = p.len() - path.len();
        assert(p.drop_last().skip(k) =~= p.skip(k).drop_last());
        if p.skip(k).drop_last() == path.drop_last() {
            assert(p.skip(k) =~= p.skip(k).drop_last().push(p.last()));
            assert(path =~= path.drop_last().push(path.last()));
        }
    }
}

/// Taking a root out leaves the other roots, in order. Taking out any other
/// node leaves the tree as it is but for its parent, which keeps its other
/// children, in order.
pub proof fn law_cut_takes_one_out<H, N, V>(bs: Seq<Branch<H, N, V>>, path: Seq<int>)
    requires
        model::is_path(bs, path),
    ensures
        path.len() == 1 ==> model::cut_at(bs, path) == bs.remove(path[0]),
        path.len() > 1 ==> {
            let parent = model::node_at(bs, path.skip(1));
            &&& model::is_path(bs, path.skip(1))
            &&& 0 <= path[0] < parent.children.len()
            &&& model::cut_at(bs, path) == model::put_at(
                bs,
                path.skip(1),
                Branch { children: parent.children.remove(path[0]), ..parent },
            )
        },
    decreases path.len(),
{
    if path.len() > 1 {
        let i = path.last();
        let way = path.drop_last();
        law_cut_takes_one_out(bs[i].children, way);
        assert(path.skip(1).last() == i);
        assert(path.skip(1).drop_last() =~= way.skip(1));
        if path.len() > 2 {
            assert(model::is_path(bs[i].children, way.skip(1)));
            let parent = model::node_at(bs, path.skip(1));
            assert(parent == model::node_at(bs[i].children, way.skip(1)));
            assert(way[0] == path[0]);
        } else {
            assert(model::is_path(bs[i].children, way));
            assert(model::node_at(bs, path.skip(1)) == bs[i]);
            assert(way.last() == path[0]);
        }
    }
}

/// The first branch that leads to the target, from the `i`-th on.
proof fn lemma_heir_at<H: PartialEq, N: Ord, V, E>(
    bs: Seq<Branch<H, N, V>>,
    i: int,
    k: int,
    hash: H,
    number: N,
    d: spec_fn(H, H) -> Result<bool, E>,
)
    requires
        0 <= i <= k <= bs.len(),
        k < bs.len() ==> finalization::leads_to(bs[k], hash, number, d),
        forall|j: int| i <= j < k ==> !finalization::leads_to(#[trigger] bs[j], hash, number, d),
    ensures
        finalization::heir(bs, i, hash, number, d) == if k < bs.len() {
            Some(k)
        } else {
            None
        },
    decreases k - i,
{
    if i < k {
        assert(!finalization::leads_to(bs[i], hash, number, d));
        lemma_heir_at(bs, i + 1, k, hash, number, d);
    }
}

/// What pruning returns, and in which order: the children of the new root that
/// do not stay, the last one first, and then the roots that were there before,
/// the last one first and without the new root, each branch in the order of
/// iteration. The `k`-th child is the first that is the target or a lower
/// ancestor of it, and stays.
pub proof fn law_prune_returns_in_order<H: PartialEq, N: Ord, V, E>(
    t: Forest<H, N, V>,
    hash: H,
    number: N,
    d: spec_fn(H, H) -> Result<bool, E>,
    q: spec_fn(V) -> bool,
    path: Seq<int>,
    k: int,
)
    requires
        search::find(t.roots, 0, hash, number, d, q) == Ok::<_, Error<E>>(Some(path)),
        ({
            let children = model::node_at(t.roots, path).children;
            &&& 0 <= k <= children.len()
            &&& k < children.len() ==> children[k].number.is_eq(&number) && children[k].hash.is_eq(
                &hash,
            ) || children[k].number.is_lt(&number) && d(children[k].hash, hash) == Ok::<bool, E>(
                true,
            )
            &&& forall|j: int|
                0 <= j < k ==> !((#[trigger] children[j]).number.is_eq(&number)
                    && children[j].hash.is_eq(&hash)) && !(children[j].number.is_lt(&number) && d(
                    children[j].hash,
                    hash,
                ) == Ok::<bool, E>(true))
        }),
    ensures
        ({
            let children = model::node_at(t.roots, path).children;
            let others = if k < children.len() {
                children.remove(k)
            } else {
                children
            };
            finalization::pruned(t, hash, number, d, q).1 == Ok::<_, Error<E>>(
                (model::walk_all(others.reverse()) + model::walk_all(
                    model::cut_at(t.roots, path).reverse(),
                )).map_values(|b: Branch<H, N, V>| (b.hash, b.number, b.data)),
            )
        }),
{
    let children = model::node_at(t.roots, path).children;
    assert forall|j: int| 0 <= j < k implies !finalization::leads_to(
        #[trigger] children[j],
        hash,
        number,
        d,
    ) by {}
    lemma_heir_at(children, 0, k, hash, number, d);
    lemma_handed_back(
        model::cut_at(t.roots, path),
        if k < children.len() {
            children.remove(k)
        } else {
            children
        },
    );
}

/// What is handed out from the last branch to the first.
proof fn lemma_handed_back<H, N, V>(a: Seq<Branch<H, N, V>>, b: Seq<Branch<H, N, V>>)
    ensures
        model::entries(model::walk_back(a + b)) == (model::walk_all(b.reverse())
            + model::walk_all(a.reverse())).map_values(
            |b: Branch<H, N, V>| (b.hash, b.number, b.data),
        ),
{
    let none = Seq::<Branch<H, N, V>>::empty();
    let all = a + b;
    model::lemma_walk_back_reversed(none, all.reverse());
    assert(none + all.reverse().reverse() =~= all);
    assert(model::walk_back(none) =~= none);
    assert(all.reverse() =~= b.reverse() + a.reverse());
    model::lemma_walk_all_add(b.reverse(), a.reverse());
    let nodes = model::walk_all(b.reverse()) + model::walk_all(a.reverse());
    assert(nodes + none =~= nodes);
    assert(model::entries(nodes) =~= nodes.map_values(
        |b: Branch<H, N, V>| (b.hash, b.number, b.data),
    ));
}

/// For every node its hash, its number and its data are handed out, in the
/// order of the nodes.
pub proof fn law_handed_out_in_order<H, N, V>(nodes: Seq<Branch<H, N, V>>)
    ensures
        model::entries(nodes).len() == nodes.len(),
        forall|i: int|
            0 <= i < nodes.len() ==> #[trigger] model::entries(nodes)[i] == (
                nodes[i].hash,
                nodes[i].number,
                nodes[i].data,
            ),
{
}

/// Where hashes, numbers and data are cloned to equal ones, a clone is equal to
/// what was cloned, down to the last node.
pub proof fn law_clone_is_equal<H: Clone, N: Clone, V: Clone>(
    b: Branch<H, N, V>,
    c: Branch<H, N, V>,
)
    requires
        forall|x: H, y: H| #[trigger] cloned(x, y) ==> x == y,
        forall|x: N, y: N| #[trigger] cloned(x, y) ==> x == y,
        forall|x: V, y: V| #[trigger] cloned(x, y) ==> x == y,
        node::cloned_branch(b, c),
    ensures
        b == c,
    decreases b,
{
    assert forall|i: int| 0 <= i < b.children.len() implies #[trigger] b.children[i]
        == c.children[i] by {
        law_clone_is_equal(b.children[i], c.children[i]);
    }
    assert(b.children =~= c.children);
}

} // verus!
