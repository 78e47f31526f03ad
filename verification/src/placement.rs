//! Where a node goes that is imported into the tree.

use vstd::prelude::*;
use vstd::std_specs::cmp::{PartialEqIs, PartialOrdIs};

use crate::balance;
use crate::error::Error;
use crate::finalization;
use crate::model;
use crate::model::{Branch, Forest};
use crate::trail;

verus! {

/// Where an imported node goes.
pub enum Placement<E> {
    /// Below the node that the path leads to.
    Under(Seq<int>),
    /// Below none of the nodes.
    Nowhere,
    /// The import fails.
    Fails(Error<E>),
}

/// Where the node goes, given where it goes `below` the children of `b`. If
/// that is nowhere, `b` is asked whether it is an ancestor of the node.
pub open spec fn adopt<H, N, V, E>(
    b: Branch<H, N, V>,
    below: Placement<E>,
    hash: H,
    d: spec_fn(H, H) -> Result<bool, E>,
) -> Placement<E> {
    match below {
        Placement::Nowhere => match d(b.hash, hash) {
            Ok(true) => Placement::Under(Seq::empty()),
            Ok(false) => Placement::Nowhere,
            Err(e) => Placement::Fails(Error::Client(e)),
        },
        _ => below,
    }
}

/// Where a node with the given hash and number goes at or below `b`: under
/// the first node, children before parents, that is an ancestor of it.
/// Meeting its hash on the way is an error. The children of a node are left
/// out if the new node is not above it.
pub open spec fn place<H: PartialEq, N: Ord, V, E>(
    b: Branch<H, N, V>,
    hash: H,
    number: N,
    d: spec_fn(H, H) -> Result<bool, E>,
) -> Placement<E>
    decreases b, 0int,
{
    if b.hash.is_eq(&hash) {
        Placement::Fails(Error::Duplicate)
    } else {
        let below = if number.is_le(&b.number) {
            Placement::Nowhere
        } else {
            place_all(b.children, 0, hash, number, d)
        };
        adopt(b, below, hash, d)
    }
}

/// Where a node goes at or below the branches from the `i`-th on.
pub open spec fn place_all<H: PartialEq, N: Ord, V, E>(
    bs: Seq<Branch<H, N, V>>,
    i: int,
    hash: H,
    number: N,
    d: spec_fn(H, H) -> Result<bool, E>,
) -> Placement<E>
    decreases bs, bs.len() - i,
{
    if i < 0 || i >= bs.len() {
        Placement::Nowhere
    } else {
        match place(bs[i], hash, number, d) {
            Placement::Under(path) => Placement::Under(path.push(i)),
            Placement::Nowhere => place_all(bs, i + 1, hash, number, d),
            other => other,
        }
    }
}

/// `b` with `c` as the last child of the node that `path` leads to.
pub open spec fn grafted_from<H, N, V>(
    b: Branch<H, N, V>,
    path: Seq<int>,
    c: Branch<H, N, V>,
) -> Branch<H, N, V> {
    model::put_from(b, path, model::with_child(model::node_from(b, path), c))
}

/// The given branches with `c` as the last child of the node at `path`.
pub open spec fn grafted<H, N, V>(
    bs: Seq<Branch<H, N, V>>,
    path: Seq<int>,
    c: Branch<H, N, V>,
) -> Seq<Branch<H, N, V>> {
    model::put_at(bs, path, model::with_child(model::node_at(bs, path), c))
}

/// What importing a node does: it becomes a child of the node that it goes
/// under, or else a root, and the tree is rebalanced. Returns whether the node
/// is a root.
pub open spec fn imported<H: PartialEq, N: Ord, V, E>(
    t: Forest<H, N, V>,
    hash: H,
    number: N,
    data: V,
    d: spec_fn(H, H) -> Result<bool, E>,
) -> (Forest<H, N, V>, Result<bool, Error<E>>) {
    let node = model::leaf(hash, number, data);
    if finalization::reverts(t, number) {
        (t, Err(Error::Revert))
    } else {
        match place_all(t.roots, 0, hash, number, d) {
            Placement::Under(path) => (
                Forest { roots: balance::rebalanced_all(grafted(t.roots, path, node)), ..t },
                Ok(false),
            ),
            Placement::Nowhere => (
                Forest { roots: balance::rebalanced_all(t.roots.push(node)), ..t },
                Ok(true),
            ),
            Placement::Fails(e) => (t, Err(e)),
        }
    }
}

/// Adding a child somewhere below the `i`-th branch.
pub proof fn lemma_grafted<H, N, V>(
    bs: Seq<Branch<H, N, V>>,
    i: int,
    path: Seq<int>,
    c: Branch<H, N, V>,
)
    requires
        0 <= i < bs.len(),
    ensures
        model::is_path_from(bs[i], path) ==> model::is_path(bs, path.push(i)),
        grafted(bs, path.push(i), c) == bs.update(i, grafted_from(bs[i], path, c)),
{
    assert(path.push(i).drop_last() =~= path);
}

/// Where a node goes at or below `b` if its hash is not that of `b` and the
/// children of `b` from the `i`-th on are still to be looked at.
pub open spec fn place_from<H: PartialEq, N: Ord, V, E>(
    b: Branch<H, N, V>,
    i: int,
    hash: H,
    number: N,
    d: spec_fn(H, H) -> Result<bool, E>,
) -> Placement<E> {
    let below = if number.is_le(&b.number) {
        Placement::Nowhere
    } else {
        place_all(b.children, i, hash, number, d)
    };
    adopt(b, below, hash, d)
}

/// Where the node goes in the end, once the branch that was entered last has
/// given `out`.
pub open spec fn unwind<H: PartialEq, N: Ord, V, E>(
    frames: Seq<(Branch<H, N, V>, int)>,
    out: Placement<E>,
    hash: H,
    number: N,
    d: spec_fn(H, H) -> Result<bool, E>,
) -> Placement<E>
    decreases frames.len(),
{
    if frames.len() == 0 {
        out
    } else {
        let (b, i) = frames.last();
        let below = match out {
            Placement::Under(path) => Placement::Under(path.push(i - 1)),
            Placement::Nowhere => place_all(b.children, i, hash, number, d),
            _ => out,
        };
        unwind(frames.drop_last(), adopt(b, below, hash, d), hash, number, d)
    }
}

/// The walk through `b` that has come as far as `frames` will end where the
/// node goes.
pub open spec fn on_course<H: PartialEq, N: Ord, V, E>(
    b: Branch<H, N, V>,
    frames: Seq<(Branch<H, N, V>, int)>,
    hash: H,
    number: N,
    d: spec_fn(H, H) -> Result<bool, E>,
) -> bool {
    if frames.len() == 0 {
        place(b, hash, number, d) == Placement::<E>::Nowhere
    } else {
        &&& forall|k: int|
            0 <= k < frames.len() - 1 ==> !number.is_le(&(#[trigger] frames[k]).0.number)
        &&& place(b, hash, number, d) == unwind(
            frames.drop_last(),
            place_from(frames.last().0, frames.last().1, hash, number, d),
            hash,
            number,
            d,
        )
    }
}

/// A place that was found ends the walk, and so does an error.
pub proof fn lemma_unwind_ends<H: PartialEq, N: Ord, V, E>(
    frames: Seq<(Branch<H, N, V>, int)>,
    path: Seq<int>,
    e: Error<E>,
    hash: H,
    number: N,
    d: spec_fn(H, H) -> Result<bool, E>,
)
    ensures
        unwind(frames, Placement::Under(path), hash, number, d) == Placement::<E>::Under(
            path + trail::trail(frames),
        ),
        unwind(frames, Placement::Fails(e), hash, number, d) == Placement::Fails(e),
    decreases frames.len(),
{
    if frames.len() == 0 {
        assert(path + trail::trail(frames) =~= path);
    } else {
        let i = frames.last().1 - 1;
        lemma_unwind_ends(frames.drop_last(), path.push(i), e, hash, number, d);
        assert(path.push(i) + trail::trail(frames.drop_last()) =~= path + trail::trail(frames));
    }
}

/// The walk stays on course, or ends, when it enters the next child.
pub proof fn lemma_place_enters<H: PartialEq, N: Ord, V, E>(
    b: Branch<H, N, V>,
    frames: Seq<(Branch<H, N, V>, int)>,
    hash: H,
    number: N,
    d: spec_fn(H, H) -> Result<bool, E>,
)
    requires
        on_course(b, frames, hash, number, d),
        frames.len() > 0,
        0 <= frames.last().1 < frames.last().0.children.len(),
        !number.is_le(&frames.last().0.number),
    ensures
        ({
            let (c, i) = frames.last();
            if c.children[i].hash.is_eq(&hash) {
                place(b, hash, number, d) == Placement::<E>::Fails(Error::Duplicate)
            } else {
                on_course(
                    b,
                    frames.update(frames.len() - 1, (c, i + 1)).push((c.children[i], 0)),
                    hash,
                    number,
                    d,
                )
            }
        }),
{
    let (c, i) = frames.last();
    let child = c.children[i];
    let moved = frames.update(frames.len() - 1, (c, i + 1));
    let entered = moved.push((child, 0));
    assert(entered.drop_last() =~= moved);
    assert(moved.drop_last() =~= frames.drop_last());
    if child.hash.is_eq(&hash) {
        lemma_unwind_ends(
            frames.drop_last(),
            Seq::empty(),
            Error::<E>::Duplicate,
            hash,
            number,
            d,
        );
    } else {
        assert(place_from(child, 0, hash, number, d) == place(child, hash, number, d));
    }
}

/// The walk stays on course, or ends, when it leaves a node.
pub proof fn lemma_place_leaves<H: PartialEq, N: Ord, V, E>(
    b: Branch<H, N, V>,
    frames: Seq<(Branch<H, N, V>, int)>,
    hash: H,
    number: N,
    d: spec_fn(H, H) -> Result<bool, E>,
)
    requires
        on_course(b, frames, hash, number, d),
        frames.len() > 0,
        number.is_le(&frames.last().0.number) || frames.last().1
            >= frames.last().0.children.len(),
    ensures
        match d(frames.last().0.hash, hash) {
            Ok(true) => place(b, hash, number, d) == Placement::<E>::Under(
                trail::trail(frames.drop_last()),
            ),
            Ok(false) => on_course(b, frames.drop_last(), hash, number, d),
            Err(e) => place(b, hash, number, d) == Placement::Fails(Error::Client(e)),
        },
{
    let c = frames.last().0;
    let rest = frames.drop_last();
    assert(place_from(c, frames.last().1, hash, number, d) == adopt(
        c,
        Placement::Nowhere,
        hash,
        d,
    ));
    assert(Seq::<int>::empty() + trail::trail(rest) =~= trail::trail(rest));
    match d(c.hash, hash) {
        Ok(true) => {
            lemma_unwind_ends(rest, Seq::empty(), Error::<E>::Duplicate, hash, number, d);
        },
        Ok(false) => {
            if rest.len() > 0 {
                assert(rest.last() == frames[frames.len() - 2]);
            }
        },
        Err(e) => {
            lemma_unwind_ends(rest, Seq::empty(), Error::Client(e), hash, number, d);
        },
    }
}

} // verus!
