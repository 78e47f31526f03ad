//! A tree that was stored can be read again, and nothing but what was stored
//! is read.

use vstd::prelude::*;

use crate::encoding;
use crate::encoding::{Reading, Writing};
use crate::error::DecodeError;
use crate::model::{Branch, Forest};

verus! {

/// What was written for a value, whatever comes after it, is read as that
/// value.
pub open spec fn reads_back<T>(
    w: spec_fn(T) -> Seq<u8>,
    p: spec_fn(Seq<u8>) -> Option<(T, usize)>,
) -> bool {
    forall|x: T, rest: Seq<u8>| encoding::taken(#[trigger] (w(x) + rest), p) == Some((x, rest))
}

/// Nothing is read as a value but what is written for it.
pub open spec fn reads_only<T>(
    w: spec_fn(T) -> Seq<u8>,
    p: spec_fn(Seq<u8>) -> Option<(T, usize)>,
) -> bool {
    forall|bytes: Seq<u8>|
        #![trigger encoding::taken(bytes, p)]
        encoding::taken(bytes, p) matches Some((x, rest)) ==> bytes == w(x) + rest
}

/// All parts of a node are read back.
pub open spec fn reads_back_all<H, N, V>(w: Writing<H, N, V>, p: Reading<H, N, V>) -> bool {
    reads_back(w.hash, p.hash) && reads_back(w.number, p.number) && reads_back(w.data, p.data)
}

/// Nothing is read as a part of a node but what is written for it.
pub open spec fn reads_only_all<H, N, V>(w: Writing<H, N, V>, p: Reading<H, N, V>) -> bool {
    reads_only(w.hash, p.hash) && reads_only(w.number, p.number) && reads_only(w.data, p.data)
}

/// A node is read back.
proof fn lemma_node_read_back<H, N, V>(
    b: Branch<H, N, V>,
    w: Writing<H, N, V>,
    p: Reading<H, N, V>,
    rest: Seq<u8>,
)
    requires
        reads_back_all(w, p),
        encoding::countable(b.children),
    ensures
        encoding::decoded_node(encoding::encoded_node(b, w) + rest, p) == Some((b, rest)),
        encoding::encoded_node(b, w).len() > 0,
    decreases b, 0int,
{
    let below = encoding::encoded_nodes(b.children, w);
    let tail = below + rest;
    let after_hash = (w.number)(b.number) + ((w.data)(b.data) + tail);
    lemma_nodes_read_back(b.children, w, p, rest);
    assert(encoding::encoded_node(b, w) + rest =~= (w.hash)(b.hash) + after_hash);
    assert(encoding::taken((w.hash)(b.hash) + after_hash, p.hash) == Some((b.hash, after_hash)));
    assert(encoding::taken(after_hash, p.number) == Some((b.number, (w.data)(b.data) + tail)));
    assert(encoding::taken((w.data)(b.data) + tail, p.data) == Some((b.data, tail)));
}

/// Sibling nodes are read back.
proof fn lemma_nodes_read_back<H, N, V>(
    bs: Seq<Branch<H, N, V>>,
    w: Writing<H, N, V>,
    p: Reading<H, N, V>,
    rest: Seq<u8>,
)
    requires
        reads_back_all(w, p),
        encoding::countable(bs),
    ensures
        encoding::decoded_nodes(encoding::encoded_nodes(bs, w) + rest, p) == Some((bs, rest)),
        encoding::encoded_nodes(bs, w).len() > 0,
    decreases bs, 1int,
{
    let n = bs.len() as u32;
    let tail = encoding::encoded_each(bs, w) + rest;
    encoding::lemma_compact_len(n);
    assert(encoding::encoded_nodes(bs, w) + rest =~= encoding::compact(n) + tail);
    encoding::lemma_counted_is(encoding::encoded_nodes(bs, w) + rest, n, tail);
    lemma_each_read_back(bs, w, p, rest);
}

/// One node after the other is read back.
proof fn lemma_each_read_back<H, N, V>(
    bs: Seq<Branch<H, N, V>>,
    w: Writing<H, N, V>,
    p: Reading<H, N, V>,
    rest: Seq<u8>,
)
    requires
        reads_back_all(w, p),
        forall|i: int| 0 <= i < bs.len() ==> encoding::countable((#[trigger] bs[i]).children),
    ensures
        encoding::decoded_each(encoding::encoded_each(bs, w) + rest, bs.len(), p) == Some(
            (bs, rest),
        ),
    decreases bs, 0int,
{
    if bs.len() == 0 {
        assert(encoding::encoded_each(bs, w) + rest =~= rest);
        assert(bs =~= Seq::empty());
    } else {
        let others = bs.drop_first();
        let tail = encoding::encoded_each(others, w) + rest;
        assert forall|i: int| 0 <= i < others.len() implies encoding::countable(
            (#[trigger] others[i]).children,
        ) by {
            assert(others[i] == bs[i + 1]);
        }
        lemma_node_read_back(bs[0], w, p, tail);
        lemma_each_read_back(others, w, p, rest);
        assert(encoding::encoded_each(bs, w) + rest =~= encoding::encoded_node(bs[0], w) + tail);
        assert(seq![bs[0]] + others =~= bs);
    }
}

/// Decoding an encoded tree gives the same tree, whatever comes after it, if
/// the parts of its nodes are read back.
pub proof fn law_decode_encoded<H, N, V>(
    t: Forest<H, N, V>,
    w: Writing<H, N, V>,
    p: Reading<H, N, V>,
    rest: Seq<u8>,
)
    requires
        reads_back_all(w, p),
        encoding::countable(t.roots),
    ensures
        encoding::decoded(encoding::encoded(t, w) + rest, p) == Ok::<_, DecodeError>((t, rest)),
{
    let best = encoding::encoded_option(t.best_finalized_number, w.number);
    let tail = best + rest;
    lemma_nodes_read_back(t.roots, w, p, tail);
    assert(encoding::encoded(t, w) + rest =~= encoding::encoded_nodes(t.roots, w) + tail);
    match t.best_finalized_number {
        Some(x) => {
            assert(tail.skip(1) =~= (w.number)(x) + rest);
            assert(encoding::taken((w.number)(x) + rest, p.number) == Some((x, rest)));
        },
        None => {
            assert(tail.skip(1) =~= rest);
        },
    }
}

/// What is read as a node was written for it.
proof fn lemma_node_read_only<H, N, V>(
    bytes: Seq<u8>,
    w: Writing<H, N, V>,
    p: Reading<H, N, V>,
)
    requires
        reads_only_all(w, p),
    ensures
        encoding::decoded_node(bytes, p) matches Some((b, rest)) ==> bytes
            == encoding::encoded_node(b, w) + rest && encoding::countable(b.children),
    decreases bytes.len(), 1int, 0int,
{
    if let Some((b, rest)) = encoding::decoded_node(bytes, p) {
        let (hash, after_hash) = encoding::taken(bytes, p.hash)->0;
        let (number, after_number) = encoding::taken(after_hash, p.number)->0;
        let (data, after_data) = encoding::taken(after_number, p.data)->0;
        lemma_nodes_read_only(after_data, w, p);
        assert(bytes =~= encoding::encoded_node(b, w) + rest);
    }
}

/// What is read as sibling nodes was written for them.
proof fn lemma_nodes_read_only<H, N, V>(
    bytes: Seq<u8>,
    w: Writing<H, N, V>,
    p: Reading<H, N, V>,
)
    requires
        reads_only_all(w, p),
    ensures
        encoding::decoded_nodes(bytes, p) matches Some((bs, rest)) ==> bytes
            == encoding::encoded_nodes(bs, w) + rest && encoding::countable(bs),
    decreases bytes.len(), 0int, 0int,
{
    if let Some((bs, rest)) = encoding::decoded_nodes(bytes, p) {
        let (n, tail) = encoding::counted(bytes)->0;
        encoding::lemma_counted(bytes);
        lemma_each_read_only(tail, n as nat, w, p);
        assert(bytes =~= encoding::encoded_nodes(bs, w) + rest);
    }
}

/// What is read as one node after the other was written for them.
proof fn lemma_each_read_only<H, N, V>(
    bytes: Seq<u8>,
    n: nat,
    w: Writing<H, N, V>,
    p: Reading<H, N, V>,
)
    requires
        reads_only_all(w, p),
    ensures
        encoding::decoded_each(bytes, n, p) matches Some((bs, rest)) ==> {
            &&& bytes == encoding::encoded_each(bs, w) + rest
            &&& bs.len() == n
            &&& forall|i: int| 0 <= i < bs.len() ==> encoding::countable((#[trigger] bs[i]).children)
        },
    decreases bytes.len(), 2int, n,
{
    if let Some((bs, rest)) = encoding::decoded_each(bytes, n, p) {
        if n == 0 {
            assert(encoding::encoded_each(bs, w) + rest =~= bytes);
        } else {
            let (b, tail) = encoding::decoded_node(bytes, p)->0;
            let (others, _) = encoding::decoded_each(tail, (n - 1) as nat, p)->0;
            lemma_node_read_only(bytes, w, p);
            lemma_each_read_only(tail, (n - 1) as nat, w, p);
            assert(bs.drop_first() =~= others);
            assert(bs[0] == b);
            assert(bytes =~= encoding::encoded_each(bs, w) + rest);
            assert forall|i: int| 0 <= i < bs.len() implies encoding::countable(
                (#[trigger] bs[i]).children,
            ) by {
                if i > 0 {
                    assert(bs[i] == others[i - 1]);
                }
            }
        }
    }
}

/// Whatever is decoded as a tree is what that tree is encoded as, if nothing
/// else is read as a part of its nodes.
pub proof fn law_encode_decoded<H, N, V>(
    bytes: Seq<u8>,
    w: Writing<H, N, V>,
    p: Reading<H, N, V>,
)
    requires
        reads_only_all(w, p),
    ensures
        encoding::decoded(bytes, p) matches Ok((t, rest)) ==> bytes == encoding::encoded(t, w)
            + rest && encoding::countable(t.roots),
{
    lemma_nodes_read_only(bytes, w, p);
    if let Ok((t, rest)) = encoding::decoded(bytes, p) {
        let (roots, tail) = encoding::decoded_nodes(bytes, p)->0;
        let best = encoding::encoded_option(t.best_finalized_number, w.number);
        match t.best_finalized_number {
            Some(x) => {
                assert(encoding::taken(tail.skip(1), p.number) == Some((x, rest)));
                assert(tail =~= seq![1u8] + tail.skip(1));
                assert(tail =~= best + rest);
            },
            None => {
                assert(tail =~= best + rest);
            },
        }
        assert(bytes =~= encoding::encoded(t, w) + rest);
    }
}

/// The bytes of a tree: the roots and then the finalized number, behind one
/// byte that tells whether there is one. Siblings are their count and then one
/// after the other; a node is its hash, its number, its data and its children.
pub proof fn law_layout<H, N, V>(
    t: Forest<H, N, V>,
    bs: Seq<Branch<H, N, V>>,
    b: Branch<H, N, V>,
    w: Writing<H, N, V>,
)
    ensures
        encoding::encoded(t, w) == encoding::encoded_nodes(t.roots, w) + (
        match t.best_finalized_number {
            Some(best) => seq![1u8] + (w.number)(best),
            None => seq![0u8],
        }),
        encoding::encoded_nodes(bs, w) == encoding::compact(bs.len() as u32) + bs.map_values(
            |c: Branch<H, N, V>| encoding::encoded_node(c, w),
        ).flatten(),
        encoding::encoded_node(b, w) == (w.hash)(b.hash) + (w.number)(b.number) + (w.data)(b.data)
            + encoding::encoded_nodes(b.children, w),
{
    lemma_each_is_flat(bs, w);
}

/// One node after the other.
proof fn lemma_each_is_flat<H, N, V>(bs: Seq<Branch<H, N, V>>, w: Writing<H, N, V>)
    ensures
        encoding::encoded_each(bs, w) == bs.map_values(
            |c: Branch<H, N, V>| encoding::encoded_node(c, w),
        ).flatten(),
    decreases bs.len(),
{
    let parts = bs.map_values(|c: Branch<H, N, V>| encoding::encoded_node(c, w));
    if bs.len() > 0 {
        lemma_each_is_flat(bs.drop_first(), w);
        assert(parts.drop_first() =~= bs.drop_first().map_values(
            |c: Branch<H, N, V>| encoding::encoded_node(c, w),
        ));
        assert(parts.first() == encoding::encoded_node(bs[0], w));
    }
}

/// The bytes of a count: the two lowest bits of the first one tell whether it
/// is one byte, two, four or five, and the others hold the count, the lowest
/// first.
pub proof fn law_count_bytes(n: u32)
    ensures
        ({
            let c = encoding::compact(n);
            &&& n < 0x40 <==> c.len() == 1
            &&& c.len() == 1 ==> c[0] == 4 * n
            &&& 0x40 <= n < 0x4000 <==> c.len() == 2
            &&& c.len() == 2 ==> c[0] + 0x100 * c[1] == 4 * n + 1
            &&& 0x4000 <= n < 0x4000_0000 <==> c.len() == 4
            &&& c.len() == 4 ==> c[0] + 0x100 * c[1] + 0x1_0000 * c[2] + 0x100_0000 * c[3] == 4 * n
                + 2
            &&& 0x4000_0000 <= n <==> c.len() == 5
            &&& c.len() == 5 ==> c[0] == 3 && c[1] + 0x100 * c[2] + 0x1_0000 * c[3] + 0x100_0000
                * c[4] == n
        }),
{
    encoding::lemma_compact_bytes(n);
}

/// A part of a node is read if the reader finds one within the bytes, and what
/// it takes is gone from the front.
pub proof fn law_part_is_taken<T>(bytes: Seq<u8>, p: spec_fn(Seq<u8>) -> Option<(T, usize)>)
    ensures
        encoding::taken(bytes, p) == match p(bytes) {
            Some((x, n)) => if n <= bytes.len() {
                Some((x, bytes.skip(n as int)))
            } else {
                None
            },
            None => None,
        },
{
}

/// Decoding fails on the roots if and only if the bytes do not start with the
/// roots of any tree. It fails on the finalized number if and only if they do,
/// and what comes next is neither a byte 0 nor a byte 1 with a number after it.
pub proof fn law_decode_fails<H, N, V>(bytes: Seq<u8>, w: Writing<H, N, V>, p: Reading<H, N, V>)
    requires
        reads_back_all(w, p),
        reads_only_all(w, p),
    ensures
        encoding::decoded(bytes, p) == Err::<(Forest<H, N, V>, Seq<u8>), _>(DecodeError::Roots)
            <==> forall|roots: Seq<Branch<H, N, V>>|
            encoding::countable(roots) ==> !(#[trigger] encoding::encoded_nodes(
                roots,
                w,
            )).is_prefix_of(bytes),
        encoding::decoded(bytes, p) == Err::<(Forest<H, N, V>, Seq<u8>), _>(
            DecodeError::BestFinalizedNumber,
        ) <==> exists|roots: Seq<Branch<H, N, V>>|
            encoding::countable(roots) && (#[trigger] encoding::encoded_nodes(
                roots,
                w,
            )).is_prefix_of(bytes) && is_no_option(
                bytes.skip(encoding::encoded_nodes(roots, w).len() as int),
                p.number,
            ),
{
    lemma_nodes_read_only(bytes, w, p);
    assert forall|roots: Seq<Branch<H, N, V>>|
        encoding::countable(roots) && (#[trigger] encoding::encoded_nodes(roots, w)).is_prefix_of(
            bytes,
        ) implies encoding::decoded_nodes(bytes, p) == Some(
        (roots, bytes.skip(encoding::encoded_nodes(roots, w).len() as int)),
    ) by {
        let written = encoding::encoded_nodes(roots, w);
        let rest = bytes.skip(written.len() as int);
        assert(bytes =~= written + rest);
        lemma_nodes_read_back(roots, w, p, rest);
    }
    if let Some((roots, rest)) = encoding::decoded_nodes(bytes, p) {
        let written = encoding::encoded_nodes(roots, w);
        assert(written.is_prefix_of(bytes));
        assert(bytes.skip(written.len() as int) =~= rest);
    }
}

/// The bytes start with no optional value.
pub open spec fn is_no_option<T>(
    bytes: Seq<u8>,
    p: spec_fn(Seq<u8>) -> Option<(T, usize)>,
) -> bool {
    ||| bytes.len() == 0
    ||| bytes[0] > 1
    ||| bytes[0] == 1 && match p(bytes.skip(1)) {
        Some((_, n)) => n > bytes.len() - 1,
        None => true,
    }
}

} // verus!
