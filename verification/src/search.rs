//! What the searches through the tree find.

use vstd::prelude::*;
use vstd::std_specs::cmp::PartialOrdIs;

use crate::error::{Error, FindOutcome};
use crate::model::Branch;
use crate::trail;

verus! {

/// What is found at a node on the way to the target, given that nothing was
/// found below it: the node itself, if it passes the predicate.
pub open spec fn settle<H, N, V, E>(b: Branch<H, N, V>, q: spec_fn(V) -> bool) -> Result<
    FindOutcome<Seq<int>>,
    Error<E>,
> {
    if q(b.data) {
        Ok(FindOutcome::Found(Seq::empty()))
    } else {
        Ok(FindOutcome::Failure(true))
    }
}

/// What is found at `b`, given what was found `below` it. If nothing below is
/// an ancestor of the target, `b` is asked whether it is one.
pub open spec fn conclude<H, N, V, E>(
    b: Branch<H, N, V>,
    below: Result<FindOutcome<Seq<int>>, Error<E>>,
    hash: H,
    d: spec_fn(H, H) -> Result<bool, E>,
    q: spec_fn(V) -> bool,
) -> Result<FindOutcome<Seq<int>>, Error<E>> {
    match below {
        Ok(FindOutcome::Failure(true)) => settle(b, q),
        Ok(FindOutcome::Failure(false)) => match d(b.hash, hash) {
            Ok(true) => settle(b, q),
            Ok(false) => Ok(FindOutcome::Failure(false)),
            Err(e) => Err(Error::Client(e)),
        },
        _ => below,
    }
}

/// What is found at or below `b`: the children are searched first, in order,
/// unless the target is not above `b`.
pub open spec fn search<H, N: Ord, V, E>(
    b: Branch<H, N, V>,
    hash: H,
    number: N,
    d: spec_fn(H, H) -> Result<bool, E>,
    q: spec_fn(V) -> bool,
) -> Result<FindOutcome<Seq<int>>, Error<E>>
    decreases b, 0int,
{
    let below = if number.is_le(&b.number) {
        Ok(FindOutcome::Failure(false))
    } else {
        search_all(b.children, 0, hash, number, d, q)
    };
    conclude(b, below, hash, d, q)
}

/// What is found at or below the branches from the `i`-th on. The search ends
/// at the first branch that holds an ancestor of the target.
pub open spec fn search_all<H, N: Ord, V, E>(
    bs: Seq<Branch<H, N, V>>,
    i: int,
    hash: H,
    number: N,
    d: spec_fn(H, H) -> Result<bool, E>,
    q: spec_fn(V) -> bool,
) -> Result<FindOutcome<Seq<int>>, Error<E>>
    decreases bs, bs.len() - i,
{
    if i < 0 || i >= bs.len() {
        Ok(FindOutcome::Failure(false))
    } else {
        match search(bs[i], hash, number, d, q) {
            Ok(FindOutcome::Found(path)) => Ok(FindOutcome::Found(path.push(i))),
            Ok(FindOutcome::Failure(false)) => search_all(bs, i + 1, hash, number, d, q),
            other => other,
        }
    }
}

/// What is found at or below `b`, if `b` is not above the target.
pub open spec fn find_from<H, N: Ord, V, E>(
    b: Branch<H, N, V>,
    hash: H,
    number: N,
    d: spec_fn(H, H) -> Result<bool, E>,
    q: spec_fn(V) -> bool,
) -> Result<FindOutcome<Seq<int>>, Error<E>> {
    if number.is_lt(&b.number) {
        Ok(FindOutcome::Failure(false))
    } else {
        search(b, hash, number, d, q)
    }
}

/// The path to the node that is found in the branches from the `i`-th on. The
/// search ends at the first branch in which a node is found.
pub open spec fn find<H, N: Ord, V, E>(
    bs: Seq<Branch<H, N, V>>,
    i: int,
    hash: H,
    number: N,
    d: spec_fn(H, H) -> Result<bool, E>,
    q: spec_fn(V) -> bool,
) -> Result<Option<Seq<int>>, Error<E>>
    decreases bs.len() - i,
{
    if i < 0 || i >= bs.len() {
        Ok(None)
    } else {
        match find_from(bs[i], hash, number, d, q) {
            Ok(FindOutcome::Found(path)) => Ok(Some(path.push(i))),
            Ok(_) => find(bs, i + 1, hash, number, d, q),
            Err(e) => Err(e),
        }
    }
}

/// What is found at `b` if its children from the `i`-th on are still to be
/// searched.
pub open spec fn search_from<H, N: Ord, V, E>(
    b: Branch<H, N, V>,
    i: int,
    hash: H,
    number: N,
    d: spec_fn(H, H) -> Result<bool, E>,
    q: spec_fn(V) -> bool,
) -> Result<FindOutcome<Seq<int>>, Error<E>> {
    let below = if number.is_le(&b.number) {
        Ok(FindOutcome::Failure(false))
    } else {
        search_all(b.children, i, hash, number, d, q)
    };
    conclude(b, below, hash, d, q)
}

/// What a search with the given frames ends with, once the node that was
/// entered last has given `out`.
pub open spec fn unwind<H, N: Ord, V, E>(
    frames: Seq<(Branch<H, N, V>, int)>,
    out: Result<FindOutcome<Seq<int>>, Error<E>>,
    hash: H,
    number: N,
    d: spec_fn(H, H) -> Result<bool, E>,
    q: spec_fn(V) -> bool,
) -> Result<FindOutcome<Seq<int>>, Error<E>>
    decreases frames.len(),
{
    if frames.len() == 0 {
        out
    } else {
        let (b, i) = frames.last();
        let below = match out {
            Ok(FindOutcome::Found(path)) => Ok(FindOutcome::Found(path.push(i - 1))),
            Ok(FindOutcome::Failure(false)) => search_all(b.children, i, hash, number, d, q),
            _ => out,
        };
        unwind(frames.drop_last(), conclude(b, below, hash, d, q), hash, number, d, q)
    }
}

/// The search of `b` that has come as far as `frames` will end with what is
/// to be found. `touched` tells that an ancestor of the target was met right
/// below the last frame.
pub open spec fn on_course<H, N: Ord, V, E>(
    b: Branch<H, N, V>,
    frames: Seq<(Branch<H, N, V>, int)>,
    touched: bool,
    hash: H,
    number: N,
    d: spec_fn(H, H) -> Result<bool, E>,
    q: spec_fn(V) -> bool,
) -> bool {
    if touched {
        search(b, hash, number, d, q) == unwind(
            frames,
            Ok(FindOutcome::Failure(true)),
            hash,
            number,
            d,
            q,
        )
    } else if frames.len() == 0 {
        search(b, hash, number, d, q) == Ok::<FindOutcome<Seq<int>>, Error<E>>(FindOutcome::Failure(false))
    } else {
        &&& forall|k: int|
            0 <= k < frames.len() - 1 ==> !number.is_le(&(#[trigger] frames[k]).0.number)
        &&& search(b, hash, number, d, q) == unwind(
            frames.drop_last(),
            search_from(frames.last().0, frames.last().1, hash, number, d, q),
            hash,
            number,
            d,
            q,
        )
    }
}

/// A node that was found ends the search, and so does an error.
pub proof fn lemma_unwind_ends<H, N: Ord, V, E>(
    frames: Seq<(Branch<H, N, V>, int)>,
    path: Seq<int>,
    e: Error<E>,
    hash: H,
    number: N,
    d: spec_fn(H, H) -> Result<bool, E>,
    q: spec_fn(V) -> bool,
)
    ensures
        unwind(frames, Ok(FindOutcome::Found(path)), hash, number, d, q) == Ok::<_, Error<E>>(
            FindOutcome::Found(path + trail::trail(frames)),
        ),
        unwind(frames, Err(e), hash, number, d, q) == Err::<FindOutcome<Seq<int>>, _>(e),
    decreases frames.len(),
{
    if frames.len() == 0 {
        assert(path + trail::trail(frames) =~= path);
    } else {
        let i = frames.last().1 - 1;
        lemma_unwind_ends(frames.drop_last(), path.push(i), e, hash, number, d, q);
        assert(path.push(i) + trail::trail(frames.drop_last()) =~= path + trail::trail(frames));
    }
}

/// The search stays on course when it enters the next child.
pub proof fn lemma_search_enters<H, N: Ord, V, E>(
    b: Branch<H, N, V>,
    frames: Seq<(Branch<H, N, V>, int)>,
    hash: H,
    number: N,
    d: spec_fn(H, H) -> Result<bool, E>,
    q: spec_fn(V) -> bool,
)
    requires
        on_course(b, frames, false, hash, number, d, q),
        frames.len() > 0,
        0 <= frames.last().1 < frames.last().0.children.len(),
        !number.is_le(&frames.last().0.number),
    ensures
        ({
            let (c, i) = frames.last();
            on_course(
                b,
                frames.update(frames.len() - 1, (c, i + 1)).push((c.children[i], 0)),
                false,
                hash,
                number,
                d,
                q,
            )
        }),
{
    let (c, i) = frames.last();
    let moved = frames.update(frames.len() - 1, (c, i + 1));
    let entered = moved.push((c.children[i], 0));
    assert(entered.drop_last() =~= moved);
    assert(moved.drop_last() =~= frames.drop_last());
    assert(search_from(c.children[i], 0, hash, number, d, q) == search(
        c.children[i],
        hash,
        number,
        d,
        q,
    ));
}

/// The search stays on course, or ends, when it leaves a node.
pub proof fn lemma_search_leaves<H, N: Ord, V, E>(
    b: Branch<H, N, V>,
    frames: Seq<(Branch<H, N, V>, int)>,
    touched: bool,
    hash: H,
    number: N,
    d: spec_fn(H, H) -> Result<bool, E>,
    q: spec_fn(V) -> bool,
)
    requires
        on_course(b, frames, touched, hash, number, d, q),
        frames.len() > 0,
        touched || number.is_le(&frames.last().0.number) || frames.last().1
            >= frames.last().0.children.len(),
    ensures
        !touched && d(frames.last().0.hash, hash) == Ok::<bool, E>(false) ==> on_course(
            b,
            frames.drop_last(),
            false,
            hash,
            number,
            d,
            q,
        ),
        !touched ==> (d(frames.last().0.hash, hash) matches Err(e) ==> search(
            b,
            hash,
            number,
            d,
            q,
        ) == Err::<FindOutcome<Seq<int>>, _>(Error::Client(e))),
        touched || d(frames.last().0.hash, hash) == Ok::<bool, E>(true) ==> if q(
            frames.last().0.data,
        ) {
            search(b, hash, number, d, q) == Ok::<_, Error<E>>(
                FindOutcome::Found(trail::trail(frames.drop_last())),
            )
        } else {
            on_course(b, frames.drop_last(), true, hash, number, d, q)
        },
{
    let c = frames.last().0;
    let rest = frames.drop_last();
    let nothing = Ok::<FindOutcome<Seq<int>>, Error<E>>(FindOutcome::Failure(false));
    if !touched {
        assert(search_from(c, frames.last().1, hash, number, d, q) == conclude(
            c,
            nothing,
            hash,
            d,
            q,
        ));
    }
    assert(Seq::<int>::empty() + trail::trail(rest) =~= trail::trail(rest));
    if touched || d(c.hash, hash) == Ok::<bool, E>(true) {
        assert(search(b, hash, number, d, q) == unwind(rest, settle(c, q), hash, number, d, q));
        lemma_unwind_ends(rest, Seq::empty(), Error::<E>::Revert, hash, number, d, q);
    } else {
        match d(c.hash, hash) {
            Err(e) => {
                lemma_unwind_ends(rest, Seq::empty(), Error::Client(e), hash, number, d, q);
            },
            Ok(_) => {
                assert(search(b, hash, number, d, q) == unwind(rest, nothing, hash, number, d, q));
                if rest.len() > 0 {
                    assert(rest.last() == frames[frames.len() - 2]);
                }
            },
        }
    }
}

} // verus!
