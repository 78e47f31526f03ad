//! A depth-first search in progress.
//!
//! The state of a search is a stack of frames, the deepest node last. A frame
//! is a node and the index of its child that comes next; the frame above it
//! is for the child before that one.

use vstd::prelude::*;

use crate::model;
use crate::model::Branch;

verus! {

/// The frames lead from `b` downwards, each to the child that its parent
/// entered last.
pub open spec fn linked<H, N, V>(b: Branch<H, N, V>, frames: Seq<(Branch<H, N, V>, int)>) -> bool
    decreases frames.len(),
{
    frames.len() == 0 || {
        let below = frames.drop_last();
        &&& linked(b, below)
        &&& 0 <= frames.last().1 <= frames.last().0.children.len()
        &&& if below.len() == 0 {
            frames.last().0 == b
        } else {
            &&& below.last().1 > 0
            &&& frames.last().0 == below.last().0.children[below.last().1 - 1]
        }
    }
}

/// The path to the child that the last frame entered last.
pub open spec fn trail<H, N, V>(frames: Seq<(Branch<H, N, V>, int)>) -> Seq<int> {
    Seq::new(frames.len(), |k: int| frames[frames.len() - 1 - k].1 - 1)
}

/// The number of nodes that have not been entered yet.
pub open spec fn unseen<H, N, V>(frames: Seq<(Branch<H, N, V>, int)>) -> nat
    decreases frames.len(),
{
    if frames.len() == 0 {
        0
    } else {
        unseen(frames.drop_last()) + model::walk_all(frames.last().0.children.skip(frames.last().1)).len()
    }
}

/// A path can be prolonged to a child of the node that it leads to.
pub proof fn lemma_prolong<H, N, V>(b: Branch<H, N, V>, path: Seq<int>, i: int)
    requires
        model::is_path_from(b, path),
        0 <= i < model::node_from(b, path).children.len(),
    ensures
        model::is_path_from(b, seq![i] + path),
        model::node_from(b, seq![i] + path) == model::node_from(b, path).children[i],
    decreases path.len(),
{
    let longer = seq![i] + path;
    assert(longer.len() > 0);
    if path.len() > 0 {
        assert(longer.last() == path.last());
        assert(longer.drop_last() =~= seq![i] + path.drop_last());
        lemma_prolong(b.children[path.last()], path.drop_last(), i);
    }
}

/// A path can be prolonged to a child of the node that it leads to.
pub proof fn lemma_prolong_all<H, N, V>(bs: Seq<Branch<H, N, V>>, path: Seq<int>, k: int)
    requires
        model::is_path(bs, path),
        0 <= k < model::node_at(bs, path).children.len(),
    ensures
        model::is_path(bs, seq![k] + path),
        model::node_at(bs, seq![k] + path) == model::node_at(bs, path).children[k],
{
    let longer = seq![k] + path;
    lemma_prolong(bs[path.last()], path.drop_last(), k);
    assert(longer.drop_last() =~= seq![k] + path.drop_last());
    assert(longer.last() == path.last());
}

/// The children of a node are nodes, too.
pub proof fn lemma_child_is_node<H, N, V>(bs: Seq<Branch<H, N, V>>, b: Branch<H, N, V>, k: int)
    requires
        model::is_node(bs, b),
        0 <= k < b.children.len(),
    ensures
        model::is_node(bs, b.children[k]),
{
    let path = choose|path: Seq<int>| #[trigger]
        model::is_path(bs, path) && model::node_at(bs, path) == b;
    lemma_prolong_all(bs, path, k);
    assert(model::is_path(bs, seq![k] + path));
}

/// The branches are nodes themselves.
pub proof fn lemma_root_is_node<H, N, V>(bs: Seq<Branch<H, N, V>>, k: int)
    requires
        0 <= k < bs.len(),
    ensures
        model::is_node(bs, bs[k]),
{
    assert(model::is_path(bs, seq![k]));
    assert(model::node_at(bs, seq![k]) == bs[k]);
}

/// The trail is a path, and it leads to the node that was entered last.
pub proof fn lemma_trail<H, N, V>(b: Branch<H, N, V>, frames: Seq<(Branch<H, N, V>, int)>)
    requires
        linked(b, frames),
        frames.len() > 0 ==> frames.last().1 > 0,
    ensures
        model::is_path_from(b, trail(frames)),
        frames.len() > 0 ==> model::node_from(b, trail(frames))
            == frames.last().0.children[frames.last().1 - 1],
        frames.len() == 0 ==> model::node_from(b, trail(frames)) == b,
    decreases frames.len(),
{
    if frames.len() > 0 {
        let below = frames.drop_last();
        lemma_trail(b, below);
        lemma_prolong(b, trail(below), frames.last().1 - 1);
        assert(trail(frames) =~= seq![frames.last().1 - 1] + trail(below));
    }
}

/// One more node has been seen once a child is entered.
pub proof fn lemma_enter<H, N, V>(frames: Seq<(Branch<H, N, V>, int)>)
    requires
        frames.len() > 0,
        0 <= frames.last().1 < frames.last().0.children.len(),
    ensures
        ({
            let (b, i) = frames.last();
            unseen(frames.update(frames.len() - 1, (b, i + 1)).push((b.children[i], 0))) + 1
                == unseen(frames)
        }),
{
    let (b, i) = frames.last();
    let moved = frames.update(frames.len() - 1, (b, i + 1));
    let entered = moved.push((b.children[i], 0));
    assert(moved.drop_last() =~= frames.drop_last());
    assert(entered.drop_last() =~= moved);
    let later = b.children.skip(i);
    assert(later[0] == b.children[i]);
    assert(later.drop_first() =~= b.children.skip(i + 1));
    assert(model::walk_all(later) == model::walk(b.children[i]) + model::walk_all(b.children.skip(i + 1)));
    assert(b.children[i].children.skip(0) =~= b.children[i].children);
    assert(model::walk(b.children[i]).len() == 1 + model::walk_all(b.children[i].children).len());
    assert(unseen(moved) == unseen(frames.drop_last()) + model::walk_all(b.children.skip(i + 1)).len());
    assert(unseen(entered) == unseen(moved) + model::walk_all(b.children[i].children).len());
}

/// Entering the next child keeps the frames linked.
pub proof fn lemma_enter_linked<H, N, V>(
    b: Branch<H, N, V>,
    frames: Seq<(Branch<H, N, V>, int)>,
)
    requires
        linked(b, frames),
        frames.len() > 0,
        frames.last().1 < frames.last().0.children.len(),
    ensures
        ({
            let (c, i) = frames.last();
            linked(b, frames.update(frames.len() - 1, (c, i + 1)).push((c.children[i], 0)))
        }),
{
    let (c, i) = frames.last();
    let moved = frames.update(frames.len() - 1, (c, i + 1));
    assert(moved.drop_last() =~= frames.drop_last());
    assert(linked(b, moved));
    assert(moved.push((c.children[i], 0)).drop_last() =~= moved);
}

} // verus!
