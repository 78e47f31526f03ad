//! What searches find and where imports go for any client, said by the order
//! in which nodes are come to and left.
//!
//! A node is come to, then, if the block is above it, its children one after
//! the other, and then it is left. A search asks about a node when it is left;
//! an import compares the hash when a node is come to, and asks when it is left.

use vstd::prelude::*;
use vstd::std_specs::cmp::{PartialEqIs, PartialOrdIs};

use crate::balance;
use crate::error::{Error, FindOutcome};
use crate::laws::finalizing;
use crate::model;
use crate::model::{Branch, Forest};
use crate::placement;
use crate::placement::Placement;
use crate::search;

verus! {

/// What happens to a node on the way through a branch.
pub enum Visit {
    /// The node that the path leads to is come to.
    Comes(Seq<int>),
    /// The node that the path leads to is left.
    Leaves(Seq<int>),
}

/// The path of a visit below the `i`-th branch, as a path from all branches.
pub open spec fn lifted(v: Visit, i: int) -> Visit {
    match v {
        Visit::Comes(path) => Visit::Comes(path.push(i)),
        Visit::Leaves(path) => Visit::Leaves(path.push(i)),
    }
}

/// All that happens on the way through `b`, in order. The children of a node
/// are left out if the number is not above that of the node.
pub open spec fn visits<H, N: Ord, V>(b: Branch<H, N, V>, number: N) -> Seq<Visit>
    decreases b, 0int,
{
    let below = if number.is_le(&b.number) {
        Seq::empty()
    } else {
        visits_from(b.children, 0, number)
    };
    seq![Visit::Comes(Seq::empty())] + below + seq![Visit::Leaves(Seq::empty())]
}

/// All that happens on the way through the branches from the `i`-th on.
pub open spec fn visits_from<H, N: Ord, V>(
    bs: Seq<Branch<H, N, V>>,
    i: int,
    number: N,
) -> Seq<Visit>
    decreases bs, bs.len() - i,
{
    if i < 0 || i >= bs.len() {
        Seq::empty()
    } else {
        visits(bs[i], number).map_values(|v: Visit| lifted(v, i)) + visits_from(bs, i + 1, number)
    }
}

/// The first visit for which `f` holds.
spec fn first(vs: Seq<Visit>, f: spec_fn(Visit) -> bool) -> Option<Visit>
    decreases vs.len(),
{
    if vs.len() == 0 {
        None
    } else if f(vs[0]) {
        Some(vs[0])
    } else {
        first(vs.drop_first(), f)
    }
}

/// The first visit of two parts is that of the first part that has one.
proof fn lemma_first_add(a: Seq<Visit>, b: Seq<Visit>, f: spec_fn(Visit) -> bool)
    ensures
        first(a + b, f) == if first(a, f) is Some {
            first(a, f)
        } else {
            first(b, f)
        },
    decreases a.len(),
{
    if a.len() == 0 {
        assert(a + b =~= b);
    } else {
        assert((a + b)[0] == a[0]);
        assert((a + b).drop_first() =~= a.drop_first() + b);
        lemma_first_add(a.drop_first(), b, f);
    }
}

/// A visit by itself.
proof fn lemma_first_one(v: Visit, f: spec_fn(Visit) -> bool)
    ensures
        first(seq![v], f) == if f(v) {
            Some(v)
        } else {
            None
        },
{
    assert(seq![v].drop_first() =~= Seq::empty());
    assert(first(seq![v].drop_first(), f) is None);
}

/// The first visit, by its place.
proof fn lemma_first_is(vs: Seq<Visit>, f: spec_fn(Visit) -> bool, k: int)
    requires
        0 <= k <= vs.len(),
        k < vs.len() ==> f(vs[k]),
        forall|j: int| 0 <= j < k ==> !f(#[trigger] vs[j]),
    ensures
        first(vs, f) == if k < vs.len() {
            Some(vs[k])
        } else {
            None
        },
    decreases vs.len(),
{
    if k > 0 {
        let rest = vs.drop_first();
        assert(!f(vs[0]));
        assert forall|j: int| 0 <= j < k - 1 implies !f(#[trigger] rest[j]) by {
            assert(rest[j] == vs[j + 1]);
        }
        lemma_first_is(rest, f, k - 1);
    }
}

/// The first visit is one of the visits, and `f` holds of it.
proof fn lemma_first_holds(vs: Seq<Visit>, f: spec_fn(Visit) -> bool)
    ensures
        first(vs, f) matches Some(v) ==> f(v) && vs.contains(v),
    decreases vs.len(),
{
    if vs.len() > 0 {
        assert(vs.contains(vs[0]));
        if !f(vs[0]) {
            let rest = vs.drop_first();
            lemma_first_holds(rest, f);
            if let Some(v) = first(rest, f) {
                let k = choose|k: int| 0 <= k < rest.len() && rest[k] == v;
                assert(vs[k + 1] == v);
            }
        }
    }
}

/// The first visit depends only on what is said of the visits.
proof fn lemma_first_same(
    vs: Seq<Visit>,
    f: spec_fn(Visit) -> bool,
    g: spec_fn(Visit) -> bool,
)
    requires
        forall|i: int| 0 <= i < vs.len() ==> f(#[trigger] vs[i]) == g(vs[i]),
    ensures
        first(vs, f) == first(vs, g),
    decreases vs.len(),
{
    if vs.len() > 0 {
        let rest = vs.drop_first();
        assert forall|i: int| 0 <= i < rest.len() implies f(#[trigger] rest[i]) == g(rest[i]) by {
            assert(rest[i] == vs[i + 1]);
        }
        assert(f(vs[0]) == g(vs[0]));
        lemma_first_same(rest, f, g);
    }
}

/// The first lifted visit.
proof fn lemma_first_lifted(
    vs: Seq<Visit>,
    i: int,
    f: spec_fn(Visit) -> bool,
    g: spec_fn(Visit) -> bool,
)
    requires
        forall|v: Visit| #[trigger] g(lifted(v, i)) == f(v),
    ensures
        first(vs.map_values(|v: Visit| lifted(v, i)), g) == match first(vs, f) {
            Some(v) => Some(lifted(v, i)),
            None => None,
        },
    decreases vs.len(),
{
    let up = vs.map_values(|v: Visit| lifted(v, i));
    if vs.len() > 0 {
        assert(up[0] == lifted(vs[0], i));
        assert(g(lifted(vs[0], i)) == f(vs[0]));
        assert(up.drop_first() =~= vs.drop_first().map_values(|v: Visit| lifted(v, i)));
        lemma_first_lifted(vs.drop_first(), i, f, g);
    }
}

/// A search from `b` stops at the visit: the node is left, and the client does
/// not clearly deny that it is an ancestor of the block.
spec fn stops<H, N, V, E>(
    b: Branch<H, N, V>,
    hash: H,
    d: spec_fn(H, H) -> Result<bool, E>,
) -> spec_fn(Visit) -> bool {
    |v: Visit|
        match v {
            Visit::Comes(_) => false,
            Visit::Leaves(path) => d(model::node_from(b, path).hash, hash) != Ok::<bool, E>(false),
        }
}

/// A search from several branches stops at the visit.
spec fn stops_all<H, N, V, E>(
    bs: Seq<Branch<H, N, V>>,
    hash: H,
    d: spec_fn(H, H) -> Result<bool, E>,
) -> spec_fn(Visit) -> bool {
    |v: Visit|
        match v {
            Visit::Comes(_) => false,
            Visit::Leaves(path) => d(model::node_at(bs, path).hash, hash) != Ok::<bool, E>(false),
        }
}

/// What is found from an ancestor of the block upwards.
spec fn climbed<H, N, V, E>(
    b: Branch<H, N, V>,
    path: Seq<int>,
    q: spec_fn(V) -> bool,
) -> Result<FindOutcome<Seq<int>>, Error<E>>
    decreases path.len(),
{
    if q(model::node_from(b, path).data) {
        Ok(FindOutcome::Found(path))
    } else if path.len() == 0 {
        Ok(FindOutcome::Failure(true))
    } else {
        climbed(b, path.skip(1), q)
    }
}

/// What is found from an ancestor of the block upwards, up to one of several
/// branches.
spec fn climbed_all<H, N, V, E>(
    bs: Seq<Branch<H, N, V>>,
    path: Seq<int>,
    q: spec_fn(V) -> bool,
) -> Result<FindOutcome<Seq<int>>, Error<E>>
    decreases path.len(),
{
    if q(model::node_at(bs, path).data) {
        Ok(FindOutcome::Found(path))
    } else if path.len() <= 1 {
        Ok(FindOutcome::Failure(true))
    } else {
        climbed_all(bs, path.skip(1), q)
    }
}

/// Climbing below the children of `b`, then to `b` itself.
proof fn lemma_climbed_step<H, N, V, E>(
    b: Branch<H, N, V>,
    path: Seq<int>,
    hash: H,
    d: spec_fn(H, H) -> Result<bool, E>,
    q: spec_fn(V) -> bool,
)
    requires
        path.len() > 0,
    ensures
        climbed::<H, N, V, E>(b, path, q) == search::conclude(
            b,
            climbed_all::<H, N, V, E>(b.children, path, q),
            hash,
            d,
            q,
        ),
    decreases path.len(),
{
    if !q(model::node_at(b.children, path).data) {
        if path.len() > 1 {
            lemma_climbed_step(b, path.skip(1), hash, d, q);
        } else {
            assert(path.skip(1) =~= Seq::empty());
            assert(climbed::<H, N, V, E>(b, path.skip(1), q) == search::settle::<H, N, V, E>(b, q));
        }
    }
}

/// Climbing below the `i`-th branch, seen from all branches.
proof fn lemma_climbed_lifted<H, N, V, E>(
    bs: Seq<Branch<H, N, V>>,
    i: int,
    path: Seq<int>,
    q: spec_fn(V) -> bool,
)
    requires
        0 <= i < bs.len(),
    ensures
        climbed_all::<H, N, V, E>(bs, path.push(i), q) == match climbed::<H, N, V, E>(
            bs[i],
            path,
            q,
        ) {
            Ok(FindOutcome::Found(p)) => Ok(FindOutcome::Found(p.push(i))),
            other => other,
        },
    decreases path.len(),
{
    model::lemma_path_below(bs, i, path);
    if !q(model::node_from(bs[i], path).data) && path.len() > 0 {
        assert(path.push(i).skip(1) =~= path.skip(1).push(i));
        lemma_climbed_lifted::<H, N, V, E>(bs, i, path.skip(1), q);
    }
}

/// What a search of `b` comes to after it has stopped.
spec fn told<H, N, V, E>(
    b: Branch<H, N, V>,
    at: Option<Visit>,
    hash: H,
    d: spec_fn(H, H) -> Result<bool, E>,
    q: spec_fn(V) -> bool,
) -> Result<FindOutcome<Seq<int>>, Error<E>> {
    match at {
        Some(Visit::Leaves(path)) => match d(model::node_from(b, path).hash, hash) {
            Err(e) => Err(Error::Client(e)),
            Ok(_) => climbed(b, path, q),
        },
        _ => Ok(FindOutcome::Failure(false)),
    }
}

/// What a search of several branches comes to after it has stopped.
spec fn told_all<H, N, V, E>(
    bs: Seq<Branch<H, N, V>>,
    at: Option<Visit>,
    hash: H,
    d: spec_fn(H, H) -> Result<bool, E>,
    q: spec_fn(V) -> bool,
) -> Result<FindOutcome<Seq<int>>, Error<E>> {
    match at {
        Some(Visit::Leaves(path)) => match d(model::node_at(bs, path).hash, hash) {
            Err(e) => Err(Error::Client(e)),
            Ok(_) => climbed_all(bs, path, q),
        },
        _ => Ok(FindOutcome::Failure(false)),
    }
}

/// The path of a visit.
pub open spec fn path_of(v: Visit) -> Seq<int> {
    match v {
        Visit::Comes(path) => path,
        Visit::Leaves(path) => path,
    }
}

/// Every visit is of a node.
proof fn lemma_visits_nodes<H, N: Ord, V>(b: Branch<H, N, V>, number: N)
    ensures
        forall|k: int|
            0 <= k < visits(b, number).len() ==> model::is_path_from(
                b,
                path_of(#[trigger] visits(b, number)[k]),
            ),
    decreases b, 0int,
{
    lemma_visits_below(b.children, 0, number);
    let vs = visits(b, number);
    let inner = visits_from(b.children, 0, number);
    assert forall|k: int| 0 <= k < vs.len() implies model::is_path_from(
        b,
        path_of(#[trigger] vs[k]),
    ) by {
        if 0 < k < vs.len() - 1 {
            assert(vs[k] == inner[k - 1]);
        }
    }
}

/// Every visit below several branches is of a node below them.
proof fn lemma_visits_below<H, N: Ord, V>(bs: Seq<Branch<H, N, V>>, i: int, number: N)
    requires
        0 <= i <= bs.len(),
    ensures
        forall|k: int|
            0 <= k < visits_from(bs, i, number).len() ==> model::is_path(
                bs,
                path_of(#[trigger] visits_from(bs, i, number)[k]),
            ),
    decreases bs, bs.len() - i,
{
    if i < bs.len() {
        let own = visits(bs[i], number);
        let up = own.map_values(|v: Visit| lifted(v, i));
        lemma_visits_nodes(bs[i], number);
        lemma_visits_below(bs, i + 1, number);
        let all = visits_from(bs, i, number);
        assert forall|k: int| 0 <= k < all.len() implies model::is_path(
            bs,
            path_of(#[trigger] all[k]),
        ) by {
            if k < own.len() {
                assert(all[k] == up[k]);
                model::lemma_path_below(bs, i, path_of(own[k]));
            } else {
                assert(all[k] == visits_from(bs, i + 1, number)[k - own.len()]);
            }
        }
    }
}

/// A climb ends with a node, or with an ancestor that did not pass.
proof fn lemma_climbed_ends<H, N, V, E>(b: Branch<H, N, V>, path: Seq<int>, q: spec_fn(V) -> bool)
    ensures
        climbed::<H, N, V, E>(b, path, q) == Ok::<_, Error<E>>(
            FindOutcome::<Seq<int>>::Failure(true),
        ) || climbed::<H, N, V, E>(b, path, q) matches Ok(FindOutcome::Found(_)),
    decreases path.len(),
{
    if !q(model::node_from(b, path).data) && path.len() > 0 {
        lemma_climbed_ends::<H, N, V, E>(b, path.skip(1), q);
    }
}

/// What a search of `b` finds, by its visits.
proof fn lemma_search_visits<H, N: Ord, V, E>(
    b: Branch<H, N, V>,
    hash: H,
    number: N,
    d: spec_fn(H, H) -> Result<bool, E>,
    q: spec_fn(V) -> bool,
)
    ensures
        search::search(b, hash, number, d, q) == told(
            b,
            first(visits(b, number), stops(b, hash, d)),
            hash,
            d,
            q,
        ),
    decreases b, 0int,
{
    let f = stops(b, hash, d);
    let g = stops_all(b.children, hash, d);
    let skipped = number.is_le(&b.number);
    let below = if skipped {
        Seq::empty()
    } else {
        visits_from(b.children, 0, number)
    };
    let come = Visit::Comes(Seq::empty());
    let leave = Visit::Leaves(Seq::empty());
    lemma_first_add(seq![come] + below, seq![leave], f);
    lemma_first_add(seq![come], below, f);
    lemma_first_one(come, f);
    lemma_first_one(leave, f);
    finalizing::lemma_answer(d(b.hash, hash));
    if !skipped {
        lemma_visits_below(b.children, 0, number);
        lemma_search_all_visits(b.children, 0, hash, number, d, q);
        lemma_first_same(below, f, g);
        lemma_first_holds(below, g);
        match first(below, g) {
            Some(Visit::Leaves(path)) => {
                finalizing::lemma_answer(d(model::node_at(b.children, path).hash, hash));
                lemma_climbed_step(b, path, hash, d, q);
            },
            _ => {},
        }
    }
}

/// What a search of several branches finds, by its visits.
proof fn lemma_search_all_visits<H, N: Ord, V, E>(
    bs: Seq<Branch<H, N, V>>,
    i: int,
    hash: H,
    number: N,
    d: spec_fn(H, H) -> Result<bool, E>,
    q: spec_fn(V) -> bool,
)
    requires
        0 <= i <= bs.len(),
    ensures
        search::search_all(bs, i, hash, number, d, q) == told_all(
            bs,
            first(visits_from(bs, i, number), stops_all(bs, hash, d)),
            hash,
            d,
            q,
        ),
    decreases bs, bs.len() - i,
{
    if i < bs.len() {
        let f = stops(bs[i], hash, d);
        let g = stops_all(bs, hash, d);
        let own = visits(bs[i], number);
        lemma_search_visits(bs[i], hash, number, d, q);
        lemma_search_all_visits(bs, i + 1, hash, number, d, q);
        lemma_first_add(
            own.map_values(|v: Visit| lifted(v, i)),
            visits_from(bs, i + 1, number),
            g,
        );
        assert forall|v: Visit| #[trigger] g(lifted(v, i)) == f(v) by {
            match v {
                Visit::Comes(_) => {},
                Visit::Leaves(path) => {
                    model::lemma_path_below(bs, i, path);
                },
            }
        }
        lemma_first_lifted(own, i, f, g);
        lemma_first_holds(own, f);
        match first(own, f) {
            Some(Visit::Leaves(path)) => {
                model::lemma_path_below(bs, i, path);
                lemma_climbed_lifted::<H, N, V, E>(bs, i, path, q);
                lemma_climbed_ends::<H, N, V, E>(bs[i], path, q);
                finalizing::lemma_answer(d(model::node_from(bs[i], path).hash, hash));
            },
            _ => {},
        }
    }
}

/// What is found when climbing, by the places that pass.
proof fn lemma_climbed_is<H, N, V, E>(
    b: Branch<H, N, V>,
    path: Seq<int>,
    q: spec_fn(V) -> bool,
    i: int,
)
    requires
        0 <= i <= path.len() + 1,
        i <= path.len() ==> q(model::node_from(b, path.skip(i)).data),
        forall|j: int| 0 <= j < i ==> !q(model::node_from(b, #[trigger] path.skip(j)).data),
    ensures
        climbed::<H, N, V, E>(b, path, q) == if i <= path.len() {
            Ok::<_, Error<E>>(FindOutcome::Found(path.skip(i)))
        } else {
            Ok::<_, Error<E>>(FindOutcome::<Seq<int>>::Failure(true))
        },
    decreases path.len(),
{
    assert(path.skip(0) =~= path);
    if i > 0 && path.len() > 0 {
        let up = path.skip(1);
        if i <= path.len() {
            assert(up.skip(i - 1) =~= path.skip(i));
        }
        assert forall|j: int| 0 <= j < i - 1 implies !q(
            model::node_from(b, #[trigger] up.skip(j)).data,
        ) by {
            assert(up.skip(j) =~= path.skip(j + 1));
        }
        lemma_climbed_is::<H, N, V, E>(b, up, q, i - 1);
    }
}

/// A node below the block's number is not searched. Otherwise the nodes are
/// asked about as they are left, up to the first, the `k`-th visit, of which
/// the client does not deny that it is an ancestor of the block. If the client
/// fails there, so does the search. If it is an ancestor, it or its closest
/// ancestor that passes the predicate is found; if none passes, the search
/// tells that it met an ancestor. If there is no such node it tells that it
/// met none.
pub proof fn law_search_asks_in_order<H, N: Ord, V, E>(
    b: Branch<H, N, V>,
    hash: H,
    number: N,
    d: spec_fn(H, H) -> Result<bool, E>,
    q: spec_fn(V) -> bool,
    k: int,
    i: int,
)
    requires
        0 <= k <= visits(b, number).len(),
        forall|j: int|
            0 <= j < k ==> (#[trigger] visits(b, number)[j] matches Visit::Leaves(path) ==> d(
                model::node_from(b, path).hash,
                hash,
            ) == Ok::<bool, E>(false)),
    ensures
        number.is_lt(&b.number) ==> search::find_from(b, hash, number, d, q) == Ok::<_, Error<E>>(
            FindOutcome::<Seq<int>>::Failure(false),
        ),
        !number.is_lt(&b.number) && k == visits(b, number).len() ==> search::find_from(
            b,
            hash,
            number,
            d,
            q,
        ) == Ok::<_, Error<E>>(FindOutcome::<Seq<int>>::Failure(false)),
        !number.is_lt(&b.number) && k < visits(b, number).len() ==> (visits(b, number)[k] matches
            Visit::Leaves(path) ==> {
            let answer = d(model::node_from(b, path).hash, hash);
            let found = search::find_from(b, hash, number, d, q);
            &&& answer matches Err(e) ==> found == Err::<FindOutcome<Seq<int>>, _>(Error::Client(e))
            &&& answer == Ok::<bool, E>(true) && 0 <= i <= path.len() && q(
                model::node_from(b, path.skip(i)).data,
            ) && (forall|j: int|
                0 <= j < i ==> !q(model::node_from(b, #[trigger] path.skip(j)).data)) ==> found
                == Ok::<_, Error<E>>(FindOutcome::Found(path.skip(i)))
            &&& answer == Ok::<bool, E>(true) && (forall|j: int|
                0 <= j <= path.len() ==> !q(model::node_from(b, #[trigger] path.skip(j)).data))
                ==> found == Ok::<_, Error<E>>(FindOutcome::<Seq<int>>::Failure(true))
        }),
{
    let vs = visits(b, number);
    let f = stops(b, hash, d);
    lemma_search_visits(b, hash, number, d, q);
    assert forall|j: int| 0 <= j < k implies !f(#[trigger] vs[j]) by {}
    if k == vs.len() {
        lemma_first_is(vs, f, k);
    } else if let Visit::Leaves(path) = vs[k] {
        let answer = d(model::node_from(b, path).hash, hash);
        finalizing::lemma_answer(answer);
        if answer != Ok::<bool, E>(false) {
            lemma_first_is(vs, f, k);
        }
        if 0 <= i <= path.len() && q(model::node_from(b, path.skip(i)).data) && (forall|j: int|
            0 <= j < i ==> !q(model::node_from(b, #[trigger] path.skip(j)).data)) {
            lemma_climbed_is::<H, N, V, E>(b, path, q, i);
        }
        if forall|j: int|
            0 <= j <= path.len() ==> !q(model::node_from(b, #[trigger] path.skip(j)).data) {
            lemma_climbed_is::<H, N, V, E>(b, path, q, path.len() as int + 1);
        }
    }
}

/// A search of the tree is a search from each root in turn. The first that
/// finds a node, or fails, decides. Nothing is found if all find nothing.
pub proof fn law_find_tries_roots<H, N: Ord, V, E>(
    bs: Seq<Branch<H, N, V>>,
    hash: H,
    number: N,
    d: spec_fn(H, H) -> Result<bool, E>,
    q: spec_fn(V) -> bool,
    k: int,
)
    requires
        0 <= k <= bs.len(),
        forall|j: int|
            0 <= j < k ==> (search::find_from(#[trigger] bs[j], hash, number, d, q) matches Ok(
                FindOutcome::Failure(_),
            )),
    ensures
        k == bs.len() ==> search::find(bs, 0, hash, number, d, q) == Ok::<
            Option<Seq<int>>,
            Error<E>,
        >(None),
        k < bs.len() ==> match search::find_from(bs[k], hash, number, d, q) {
            Ok(FindOutcome::Found(path)) => search::find(bs, 0, hash, number, d, q) == Ok::<
                _,
                Error<E>,
            >(Some(path.push(k))),
            Err(e) => search::find(bs, 0, hash, number, d, q) == Err::<Option<Seq<int>>, _>(e),
            _ => true,
        },
{
    lemma_find_tries(bs, 0, hash, number, d, q, k);
}

/// A search of the branches from the `i`-th on.
proof fn lemma_find_tries<H, N: Ord, V, E>(
    bs: Seq<Branch<H, N, V>>,
    i: int,
    hash: H,
    number: N,
    d: spec_fn(H, H) -> Result<bool, E>,
    q: spec_fn(V) -> bool,
    k: int,
)
    requires
        0 <= i <= k <= bs.len(),
        forall|j: int|
            0 <= j < k ==> (search::find_from(#[trigger] bs[j], hash, number, d, q) matches Ok(
                FindOutcome::Failure(_),
            )),
    ensures
        k == bs.len() ==> search::find(bs, i, hash, number, d, q) == Ok::<
            Option<Seq<int>>,
            Error<E>,
        >(None),
        k < bs.len() ==> match search::find_from(bs[k], hash, number, d, q) {
            Ok(FindOutcome::Found(path)) => search::find(bs, i, hash, number, d, q) == Ok::<
                _,
                Error<E>,
            >(Some(path.push(k))),
            Err(e) => search::find(bs, i, hash, number, d, q) == Err::<Option<Seq<int>>, _>(e),
            _ => true,
        },
    decreases k - i,
{
    if i < k {
        assert(search::find_from(bs[i], hash, number, d, q) matches Ok(FindOutcome::Failure(_)));
        lemma_find_tries(bs, i + 1, hash, number, d, q, k);
    }
}

/// An import below `b` ends at the visit: the hash is met when a node is come
/// to, or the client does not deny, when one is left, that it is an ancestor.
spec fn ends<H: PartialEq, N, V, E>(
    b: Branch<H, N, V>,
    hash: H,
    d: spec_fn(H, H) -> Result<bool, E>,
) -> spec_fn(Visit) -> bool {
    |v: Visit|
        match v {
            Visit::Comes(path) => model::node_from(b, path).hash.is_eq(&hash),
            Visit::Leaves(path) => d(model::node_from(b, path).hash, hash) != Ok::<bool, E>(false),
        }
}

/// An import below several branches ends at the visit.
spec fn ends_all<H: PartialEq, N, V, E>(
    bs: Seq<Branch<H, N, V>>,
    hash: H,
    d: spec_fn(H, H) -> Result<bool, E>,
) -> spec_fn(Visit) -> bool {
    |v: Visit|
        match v {
            Visit::Comes(path) => model::node_at(bs, path).hash.is_eq(&hash),
            Visit::Leaves(path) => d(model::node_at(bs, path).hash, hash) != Ok::<bool, E>(false),
        }
}

/// Where an import goes that has ended at the visit, with the client's answer.
spec fn gone<E>(at: Option<Visit>, answer: Result<bool, E>) -> Placement<E> {
    match at {
        None => Placement::Nowhere,
        Some(Visit::Comes(_)) => Placement::Fails(Error::Duplicate),
        Some(Visit::Leaves(path)) => match answer {
            Err(e) => Placement::Fails(Error::Client(e)),
            Ok(_) => Placement::Under(path),
        },
    }
}

/// Where an import below `b` goes, by its visits.
proof fn lemma_place_visits<H: PartialEq, N: Ord, V, E>(
    b: Branch<H, N, V>,
    hash: H,
    number: N,
    d: spec_fn(H, H) -> Result<bool, E>,
)
    ensures
        ({
            let at = first(visits(b, number), ends(b, hash, d));
            placement::place(b, hash, number, d) == gone(
                at,
                d(model::node_from(b, path_of(at->Some_0)).hash, hash),
            )
        }),
    decreases b, 0int,
{
    let f = ends(b, hash, d);
    let g = ends_all(b.children, hash, d);
    let skipped = number.is_le(&b.number);
    let below = if skipped {
        Seq::empty()
    } else {
        visits_from(b.children, 0, number)
    };
    let come = Visit::Comes(Seq::empty());
    let leave = Visit::Leaves(Seq::empty());
    lemma_first_add(seq![come] + below, seq![leave], f);
    lemma_first_add(seq![come], below, f);
    lemma_first_one(come, f);
    lemma_first_one(leave, f);
    finalizing::lemma_answer(d(b.hash, hash));
    if !skipped {
        lemma_visits_below(b.children, 0, number);
        lemma_place_all_visits(b.children, 0, hash, number, d);
        lemma_first_same(below, f, g);
        lemma_first_holds(below, g);
    }
}

/// Where an import below several branches goes, by its visits.
proof fn lemma_place_all_visits<H: PartialEq, N: Ord, V, E>(
    bs: Seq<Branch<H, N, V>>,
    i: int,
    hash: H,
    number: N,
    d: spec_fn(H, H) -> Result<bool, E>,
)
    requires
        0 <= i <= bs.len(),
    ensures
        ({
            let at = first(visits_from(bs, i, number), ends_all(bs, hash, d));
            placement::place_all(bs, i, hash, number, d) == gone(
                at,
                d(model::node_at(bs, path_of(at->Some_0)).hash, hash),
            )
        }),
    decreases bs, bs.len() - i,
{
    if i < bs.len() {
        let f = ends(bs[i], hash, d);
        let g = ends_all(bs, hash, d);
        let own = visits(bs[i], number);
        lemma_place_visits(bs[i], hash, number, d);
        lemma_place_all_visits(bs, i + 1, hash, number, d);
        lemma_first_add(
            own.map_values(|v: Visit| lifted(v, i)),
            visits_from(bs, i + 1, number),
            g,
        );
        assert forall|v: Visit| #[trigger] g(lifted(v, i)) == f(v) by {
            model::lemma_path_below(bs, i, path_of(v));
        }
        lemma_first_lifted(own, i, f, g);
        if let Some(v) = first(own, f) {
            model::lemma_path_below(bs, i, path_of(v));
        }
    }
}

/// The roots that an import leaves, before they are rebalanced, and its answer.
pub open spec fn is_import_of<H, N, V, E>(
    t: Forest<H, N, V>,
    roots: Seq<Branch<H, N, V>>,
    answer: bool,
    done: (Forest<H, N, V>, Result<bool, Error<E>>),
) -> bool {
    &&& done.1 == Ok::<bool, Error<E>>(answer)
    &&& done.0 == Forest { roots: balance::rebalanced_all(roots), ..t }
}

/// An import that does not go behind the finalized number goes through the
/// tree up to the first visit, the `k`-th, at which the hash is met or the
/// client does not deny that the node left is an ancestor. A known hash is a
/// duplicate and a failing client makes the import fail, and the tree stays.
/// Below an ancestor the block becomes the last child. If there is no such
/// visit the block becomes the last root.
pub proof fn law_import_goes_in_order<H: PartialEq, N: Ord, V, E>(
    t: Forest<H, N, V>,
    hash: H,
    number: N,
    data: V,
    d: spec_fn(H, H) -> Result<bool, E>,
    k: int,
)
    requires
        t.best_finalized_number matches Some(best) ==> !number.is_le(&best),
        0 <= k <= visits_from(t.roots, 0, number).len(),
        forall|j: int|
            0 <= j < k ==> match #[trigger] visits_from(t.roots, 0, number)[j] {
                Visit::Comes(path) => !model::node_at(t.roots, path).hash.is_eq(&hash),
                Visit::Leaves(path) => d(model::node_at(t.roots, path).hash, hash) == Ok::<bool, E>(
                    false,
                ),
            },
    ensures
        ({
            let done = placement::imported(t, hash, number, data, d);
            let node = Branch { hash, number, data, children: Seq::empty() };
            if k == visits_from(t.roots, 0, number).len() {
                is_import_of(t, t.roots.push(node), true, done)
            } else {
                match visits_from(t.roots, 0, number)[k] {
                    Visit::Comes(path) => model::node_at(t.roots, path).hash.is_eq(&hash) ==> done
                        == (t, Err::<bool, _>(Error::<E>::Duplicate)),
                    Visit::Leaves(path) => {
                        let parent = model::node_at(t.roots, path);
                        &&& d(parent.hash, hash) matches Err(e) ==> done == (
                            t,
                            Err::<bool, _>(Error::Client(e)),
                        )
                        &&& d(parent.hash, hash) == Ok::<bool, E>(true) ==> is_import_of(
                            t,
                            model::put_at(
                                t.roots,
                                path,
                                Branch { children: parent.children.push(node), ..parent },
                            ),
                            false,
                            done,
                        )
                    },
                }
            }
        }),
{
    let vs = visits_from(t.roots, 0, number);
    let f = ends_all(t.roots, hash, d);
    lemma_place_all_visits(t.roots, 0, hash, number, d);
    assert forall|j: int| 0 <= j < k implies !f(#[trigger] vs[j]) by {}
    if k == vs.len() || f(vs[k]) {
        lemma_first_is(vs, f, k);
    }
}

} // verus!
