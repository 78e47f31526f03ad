//! The bytes that a tree is stored as.
//!
//! A tree is its roots, then the best finalized number. Sibling nodes are
//! their count, in compact form, then one node after the other. A node is its
//! hash, its number, its data and then its children. An optional value is one
//! byte that tells whether it is there, then the value. How hashes, numbers
//! and data are written is left to the caller.

use parity_scale_codec::{Compact, Decode, Encode};
use vstd::prelude::*;
use vstd::slice::slice_subrange;

use crate::error::DecodeError;
use crate::model::{Branch, Forest};
use crate::node;
use crate::node::Node;
use crate::tree::ForkTree;

verus! {

/// The lowest `k` bytes of `n`, the lowest first.
pub open spec fn little_endian(n: nat, k: nat) -> Seq<u8>
    decreases k,
{
    if k == 0 {
        Seq::empty()
    } else {
        seq![(n % 256) as u8] + little_endian(n / 256, (k - 1) as nat)
    }
}

/// A count in compact form: the two lowest bits of the first byte tell how
/// many bytes there are.
pub open spec fn compact(n: u32) -> Seq<u8> {
    if n < 0x40 {
        little_endian((n * 4) as nat, 1)
    } else if n < 0x4000 {
        little_endian((n * 4 + 1) as nat, 2)
    } else if n < 0x4000_0000 {
        little_endian((n * 4 + 2) as nat, 4)
    } else {
        seq![3u8] + little_endian(n as nat, 4)
    }
}

/// Writes a count in compact form, by `Compact::<u32>::encode`.
///
/// The codec writes a number below 2^6 as one byte, one below 2^14 as two,
/// one below 2^30 as four and any other as a byte 3 and four more, the lowest
/// byte first and, up to four bytes, with the number shifted by the two bits
/// that tell the length.
#[verifier::external_body]
fn write_compact(n: u32) -> (r: Vec<u8>)
    ensures
        r@ == compact(n),
{
    Compact(n).encode()
}

/// Reads a count in compact form from the front of the input, by
/// `Compact::<u32>::decode`, and returns it with the rest of the input.
///
/// The codec accepts a count only in the form in which it writes it, and fails
/// on any other input. What it says about the failure is dropped.
#[verifier::external_body]
fn read_compact(bytes: &[u8]) -> (r: Option<(u32, &[u8])>)
    ensures
        match r {
            Some((n, rest)) => bytes@ == compact(n) + rest@,
            None => forall|n: u32| !(#[trigger] compact(n)).is_prefix_of(bytes@),
        },
{
    let mut rest = bytes;
    match Compact::<u32>::decode(&mut rest) {
        Ok(n) => Some((n.0, rest)),
        Err(_) => None,
    }
}

/// How the parts of a node are written.
#[verifier::reject_recursive_types(H)]
#[verifier::reject_recursive_types(N)]
#[verifier::reject_recursive_types(V)]
pub struct Writing<H, N, V> {
    /// The bytes of a hash.
    pub hash: spec_fn(H) -> Seq<u8>,
    /// The bytes of a number.
    pub number: spec_fn(N) -> Seq<u8>,
    /// The bytes of a value.
    pub data: spec_fn(V) -> Seq<u8>,
}

/// How the parts of a node are read from the front of some bytes: what is
/// read, and how many bytes it takes.
#[verifier::reject_recursive_types(H)]
#[verifier::reject_recursive_types(N)]
#[verifier::reject_recursive_types(V)]
pub struct Reading<H, N, V> {
    /// What is read as a hash.
    pub hash: spec_fn(Seq<u8>) -> Option<(H, usize)>,
    /// What is read as a number.
    pub number: spec_fn(Seq<u8>) -> Option<(N, usize)>,
    /// What is read as a value.
    pub data: spec_fn(Seq<u8>) -> Option<(V, usize)>,
}

/// Whatever the function returns is what `w` says.
pub open spec fn writes_as<T, W: Fn(&T) -> Vec<u8>>(f: W, w: spec_fn(T) -> Seq<u8>) -> bool {
    forall|x: T, r: Vec<u8>| #[trigger] call_ensures(f, (&x,), r) ==> r@ == w(x)
}

/// Whatever the three functions return is what `w` says.
pub open spec fn writes<H, N, V, WH, WN, WV>(
    hash: WH,
    number: WN,
    data: WV,
    w: Writing<H, N, V>,
) -> bool where WH: Fn(&H) -> Vec<u8>, WN: Fn(&N) -> Vec<u8>, WV: Fn(&V) -> Vec<u8> {
    &&& writes_as(hash, w.hash)
    &&& writes_as(number, w.number)
    &&& writes_as(data, w.data)
}

/// The function may be given any value to write.
pub open spec fn writes_all<T, W: Fn(&T) -> Vec<u8>>(f: W) -> bool {
    forall|x: &T| #[trigger] call_requires(f, (x,))
}

/// Whatever the function returns is what `p` says.
pub open spec fn reads_as<T, R: Fn(&[u8]) -> Option<(T, usize)>>(
    f: R,
    p: spec_fn(Seq<u8>) -> Option<(T, usize)>,
) -> bool {
    forall|s: &[u8], r: Option<(T, usize)>| #[trigger] call_ensures(f, (s,), r) ==> r == p(s@)
}

/// Whatever the three functions return is what `p` says.
pub open spec fn reads<H, N, V, RH, RN, RV>(
    hash: RH,
    number: RN,
    data: RV,
    p: Reading<H, N, V>,
) -> bool where
    RH: Fn(&[u8]) -> Option<(H, usize)>,
    RN: Fn(&[u8]) -> Option<(N, usize)>,
    RV: Fn(&[u8]) -> Option<(V, usize)>,
 {
    &&& reads_as(hash, p.hash)
    &&& reads_as(number, p.number)
    &&& reads_as(data, p.data)
}

/// The function may be given any bytes to read.
pub open spec fn reads_all<T, R: Fn(&[u8]) -> Option<(T, usize)>>(f: R) -> bool {
    forall|s: &[u8]| #[trigger] call_requires(f, (s,))
}

/// The bytes of a node.
pub open spec fn encoded_node<H, N, V>(b: Branch<H, N, V>, w: Writing<H, N, V>) -> Seq<u8>
    decreases b,
{
    (w.hash)(b.hash) + (w.number)(b.number) + (w.data)(b.data) + encoded_nodes(b.children, w)
}

/// The bytes of sibling nodes.
pub open spec fn encoded_nodes<H, N, V>(bs: Seq<Branch<H, N, V>>, w: Writing<H, N, V>) -> Seq<u8>
    decreases bs, 1int,
{
    compact(bs.len() as u32) + encoded_each(bs, w)
}

/// The bytes of one node after the other.
pub open spec fn encoded_each<H, N, V>(bs: Seq<Branch<H, N, V>>, w: Writing<H, N, V>) -> Seq<u8>
    decreases bs, 0int,
{
    if bs.len() == 0 {
        Seq::empty()
    } else {
        encoded_node(bs[0], w) + encoded_each(bs.drop_first(), w)
    }
}

/// The bytes of an optional value.
pub open spec fn encoded_option<T>(x: Option<T>, w: spec_fn(T) -> Seq<u8>) -> Seq<u8> {
    match x {
        Some(x) => seq![1u8] + w(x),
        None => seq![0u8],
    }
}

/// The bytes of a tree.
pub open spec fn encoded<H, N, V>(t: Forest<H, N, V>, w: Writing<H, N, V>) -> Seq<u8> {
    encoded_nodes(t.roots, w) + encoded_option(t.best_finalized_number, w.number)
}

/// No node has more siblings than a count in compact form can tell.
pub open spec fn countable<H, N, V>(bs: Seq<Branch<H, N, V>>) -> bool
    decreases bs,
{
    &&& bs.len() <= u32::MAX
    &&& forall|i: int| 0 <= i < bs.len() ==> countable((#[trigger] bs[i]).children)
}

/// One more node at the end.
pub proof fn lemma_encoded_push<H, N, V>(
    bs: Seq<Branch<H, N, V>>,
    b: Branch<H, N, V>,
    w: Writing<H, N, V>,
)
    ensures
        encoded_each(bs.push(b), w) == encoded_each(bs, w) + encoded_node(b, w),
    decreases bs.len(),
{
    let all = bs.push(b);
    if bs.len() == 0 {
        assert(all.drop_first() =~= Seq::empty());
        assert(encoded_each(all.drop_first(), w) =~= Seq::empty());
        assert(encoded_each(bs, w) =~= Seq::empty());
        assert(all[0] == b);
        assert(encoded_each(all, w) =~= encoded_node(b, w));
    } else {
        lemma_encoded_push(bs.drop_first(), b, w);
        assert(all.drop_first() =~= bs.drop_first().push(b));
        assert(all[0] == bs[0]);
        assert(encoded_each(all, w) =~= encoded_each(bs, w) + encoded_node(b, w));
    }
}

/// Writes a node after what was written before.
fn encode_node<H, N, V, WH, WN, WV>(
    out: &mut Vec<u8>,
    n: &Node<H, N, V>,
    hash: &WH,
    number: &WN,
    data: &WV,
) where WH: Fn(&H) -> Vec<u8>, WN: Fn(&N) -> Vec<u8>, WV: Fn(&V) -> Vec<u8>
    requires
        writes_all::<H, WH>(*hash),
        writes_all::<N, WN>(*number),
        writes_all::<V, WV>(*data),
        countable(n@.children),
    ensures
        forall|w: Writing<H, N, V>| #[trigger]
            writes(*hash, *number, *data, w) ==> final(out)@ == old(out)@ + encoded_node(n@, w),
    decreases n,
{
    let ghost before = out@;
    let mut part = hash(&n.hash);
    out.append(&mut part);
    let mut part = number(&n.number);
    out.append(&mut part);
    let mut part = data(&n.data);
    out.append(&mut part);
    assert(node::branches(n.children@) =~= n@.children);
    encode_nodes(out, &n.children, hash, number, data);
    proof {
        assert forall|w: Writing<H, N, V>| #[trigger]
            writes(*hash, *number, *data, w) implies out@ == before + encoded_node(n@, w) by {
            assert(out@ =~= before + encoded_node(n@, w));
        }
    }
}

/// Writes sibling nodes after what was written before.
fn encode_nodes<H, N, V, WH, WN, WV>(
    out: &mut Vec<u8>,
    nodes: &Vec<Node<H, N, V>>,
    hash: &WH,
    number: &WN,
    data: &WV,
) where WH: Fn(&H) -> Vec<u8>, WN: Fn(&N) -> Vec<u8>, WV: Fn(&V) -> Vec<u8>
    requires
        writes_all::<H, WH>(*hash),
        writes_all::<N, WN>(*number),
        writes_all::<V, WV>(*data),
        countable(node::branches(nodes@)),
    ensures
        forall|w: Writing<H, N, V>| #[trigger]
            writes(*hash, *number, *data, w) ==> final(out)@ == old(out)@ + encoded_nodes(
                node::branches(nodes@),
                w,
            ),
    decreases nodes,
{
    let ghost before = out@;
    let ghost bs = node::branches(nodes@);
    let mut count = write_compact(nodes.len() as u32);
    out.append(&mut count);
    let mut i: usize = 0;
    proof {
        assert forall|w: Writing<H, N, V>| #[trigger]
            writes(*hash, *number, *data, w) implies out@ == before + compact(bs.len() as u32)
            + encoded_each(bs.take(0), w) by {
            assert(encoded_each(bs.take(0), w) =~= Seq::empty());
            assert(out@ =~= before + compact(bs.len() as u32) + encoded_each(bs.take(0), w));
        }
    }
    while i < nodes.len()
        invariant
            writes_all::<H, WH>(*hash),
            writes_all::<N, WN>(*number),
            writes_all::<V, WV>(*data),
            bs == node::branches(nodes@),
            countable(bs),
            i <= nodes@.len(),
            forall|w: Writing<H, N, V>| #[trigger]
                writes(*hash, *number, *data, w) ==> out@ == before + compact(bs.len() as u32)
                    + encoded_each(bs.take(i as int), w),
        decreases nodes@.len() - i,
    {
        let ghost so_far = out@;
        assert(bs[i as int] == nodes@[i as int]@);
        encode_node(out, &nodes[i], hash, number, data);
        proof {
            assert forall|w: Writing<H, N, V>| #[trigger]
                writes(*hash, *number, *data, w) implies out@ == before + compact(bs.len() as u32)
                + encoded_each(bs.take(i + 1), w) by {
                lemma_encoded_push(bs.take(i as int), bs[i as int], w);
                assert(bs.take(i as int).push(bs[i as int]) =~= bs.take(i + 1));
                assert(so_far + encoded_node(bs[i as int], w) =~= before + compact(bs.len() as u32)
                    + encoded_each(bs.take(i + 1), w));
            }
        }
        i = i + 1;
    }
    proof {
        assert(bs.take(bs.len() as int) =~= bs);
        assert forall|w: Writing<H, N, V>| #[trigger]
            writes(*hash, *number, *data, w) implies out@ == before + encoded_nodes(bs, w) by {
            assert(out@ =~= before + encoded_nodes(bs, w));
        }
    }
}

impl<H, N, V> ForkTree<H, N, V> {
    /// Encode the tree, with the given functions for its hashes, numbers and
    /// data.
    pub fn encode_with<WH, WN, WV>(&self, hash: &WH, number: &WN, data: &WV) -> (r: Vec<u8>) where
        WH: Fn(&H) -> Vec<u8>,
        WN: Fn(&N) -> Vec<u8>,
        WV: Fn(&V) -> Vec<u8>,

        requires
            writes_all::<H, WH>(*hash),
            writes_all::<N, WN>(*number),
            writes_all::<V, WV>(*data),
            countable(self@.roots),
        ensures
            forall|w: Writing<H, N, V>| #[trigger]
                writes(*hash, *number, *data, w) ==> r@ == encoded(self@, w),
    {
        let mut out: Vec<u8> = Vec::new();
        encode_nodes(&mut out, &self.roots, hash, number, data);
        match &self.best_finalized_number {
            Some(best) => {
                out.push(1u8);
                let mut part = number(best);
                out.append(&mut part);
            },
            None => {
                out.push(0u8);
            },
        }
        proof {
            assert forall|w: Writing<H, N, V>| #[trigger]
                writes(*hash, *number, *data, w) implies out@ == encoded(self@, w) by {
                assert(out@ =~= encoded(self@, w));
            }
        }
        out
    }
}

/// The count in compact form that some bytes start with.
pub open spec fn counted(bytes: Seq<u8>) -> Option<(u32, Seq<u8>)> {
    if exists|n: u32| (#[trigger] compact(n)).is_prefix_of(bytes) {
        let n = choose|n: u32| (#[trigger] compact(n)).is_prefix_of(bytes);
        Some((n, bytes.skip(compact(n).len() as int)))
    } else {
        None
    }
}

/// What is read from the front of some bytes, and the bytes after it. What
/// takes more bytes than there are cannot be read.
pub open spec fn taken<T>(bytes: Seq<u8>, p: spec_fn(Seq<u8>) -> Option<(T, usize)>) -> Option<
    (T, Seq<u8>),
> {
    match p(bytes) {
        Some((x, used)) => if used <= bytes.len() {
            Some((x, bytes.skip(used as int)))
        } else {
            None
        },
        None => None,
    }
}

/// The node that some bytes start with, and the bytes after it.
pub open spec fn decoded_node<H, N, V>(bytes: Seq<u8>, p: Reading<H, N, V>) -> Option<
    (Branch<H, N, V>, Seq<u8>),
>
    decreases bytes.len(), 1int, 0int,
{
    match taken(bytes, p.hash) {
        None => None,
        Some((hash, bytes)) => match taken(bytes, p.number) {
            None => None,
            Some((number, bytes)) => match taken(bytes, p.data) {
                None => None,
                Some((data, bytes)) => match decoded_nodes(bytes, p) {
                    None => None,
                    Some((children, bytes)) => Some(
                        (Branch { hash, number, data, children }, bytes),
                    ),
                },
            },
        },
    }
}

/// The sibling nodes that some bytes start with, and the bytes after them.
pub open spec fn decoded_nodes<H, N, V>(bytes: Seq<u8>, p: Reading<H, N, V>) -> Option<
    (Seq<Branch<H, N, V>>, Seq<u8>),
>
    decreases bytes.len(), 0int, 0int,
{
    match counted(bytes) {
        None => None,
        Some((n, rest)) => {
            proof {
                lemma_counted(bytes);
            }
            decoded_each(rest, n as nat, p)
        },
    }
}

/// The `n` nodes that some bytes start with, and the bytes after them.
pub open spec fn decoded_each<H, N, V>(bytes: Seq<u8>, n: nat, p: Reading<H, N, V>) -> Option<
    (Seq<Branch<H, N, V>>, Seq<u8>),
>
    decreases bytes.len(), 2int, n,
{
    if n == 0 {
        Some((Seq::empty(), bytes))
    } else {
        match decoded_node(bytes, p) {
            None => None,
            Some((b, rest)) => if rest.len() < bytes.len() {
                match decoded_each(rest, (n - 1) as nat, p) {
                    None => None,
                    Some((bs, rest)) => Some((seq![b] + bs, rest)),
                }
            } else {
                None
            },
        }
    }
}

/// The optional value that some bytes start with, and the bytes after it.
pub open spec fn decoded_option<T>(
    bytes: Seq<u8>,
    p: spec_fn(Seq<u8>) -> Option<(T, usize)>,
) -> Option<(Option<T>, Seq<u8>)> {
    if bytes.len() > 0 && bytes[0] == 0 {
        Some((None, bytes.skip(1)))
    } else if bytes.len() > 0 && bytes[0] == 1 {
        match taken(bytes.skip(1), p) {
            Some((x, rest)) => Some((Some(x), rest)),
            None => None,
        }
    } else {
        None
    }
}

/// The tree that some bytes start with, and the bytes after it.
pub open spec fn decoded<H, N, V>(bytes: Seq<u8>, p: Reading<H, N, V>) -> Result<
    (Forest<H, N, V>, Seq<u8>),
    DecodeError,
> {
    match decoded_nodes(bytes, p) {
        None => Err(DecodeError::Roots),
        Some((roots, rest)) => match decoded_option(rest, p.number) {
            None => Err(DecodeError::BestFinalizedNumber),
            Some((best_finalized_number, rest)) => Ok(
                (Forest { roots, best_finalized_number }, rest),
            ),
        },
    }
}

/// The lowest bytes of a number, one by one.
proof fn lemma_little_endian(n: nat, k: nat)
    ensures
        little_endian(n, k).len() == k,
        k >= 1 ==> little_endian(n, k)[0] == n % 256,
        k >= 2 ==> little_endian(n, k)[1] == n / 256 % 256,
        k >= 3 ==> little_endian(n, k)[2] == n / 256 / 256 % 256,
        k >= 4 ==> little_endian(n, k)[3] == n / 256 / 256 / 256 % 256,
    decreases k,
{
    if k > 0 {
        lemma_little_endian(n / 256, (k - 1) as nat);
    }
}

/// A count in compact form, byte by byte.
pub proof fn lemma_compact_bytes(n: u32)
    ensures
        n < 0x40 ==> compact(n).len() == 1 && compact(n)[0] == n * 4,
        0x40 <= n < 0x4000 ==> compact(n).len() == 2 && n * 4 + 1 == compact(n)[0] + compact(n)[1]
            * 256,
        0x4000 <= n < 0x4000_0000 ==> compact(n).len() == 4 && n * 4 + 2 == compact(n)[0]
            + compact(n)[1] * 256 + compact(n)[2] * 0x1_0000 + compact(n)[3] * 0x100_0000,
        0x4000_0000 <= n ==> compact(n).len() == 5 && compact(n)[0] == 3 && n == compact(n)[1]
            + compact(n)[2] * 256 + compact(n)[3] * 0x1_0000 + compact(n)[4] * 0x100_0000,
{
    if n < 0x40 {
        lemma_little_endian((n * 4) as nat, 1);
    } else if n < 0x4000 {
        lemma_little_endian((n * 4 + 1) as nat, 2);
    } else if n < 0x4000_0000 {
        lemma_little_endian((n * 4 + 2) as nat, 4);
    } else {
        lemma_little_endian(n as nat, 4);
    }
}

/// No count in compact form is the start of another one.
pub proof fn lemma_compact_prefix(a: u32, b: u32, bytes: Seq<u8>)
    requires
        compact(a).is_prefix_of(bytes),
        compact(b).is_prefix_of(bytes),
    ensures
        a == b,
{
    lemma_compact_bytes(a);
    lemma_compact_bytes(b);
    assert(forall|i: int| 0 <= i < compact(a).len() ==> #[trigger] compact(a)[i] == bytes[i]);
    assert(forall|i: int| 0 <= i < compact(b).len() ==> #[trigger] compact(b)[i] == bytes[i]);
}

/// A count in compact form takes at least one byte.
pub proof fn lemma_compact_len(n: u32)
    ensures
        1 <= compact(n).len() <= 5,
{
    lemma_compact_bytes(n);
}

/// There are fewer bytes left after a count.
pub proof fn lemma_counted(bytes: Seq<u8>)
    ensures
        counted(bytes) matches Some((n, rest)) ==> bytes == compact(n) + rest && rest.len()
            < bytes.len(),
{
    if let Some((n, rest)) = counted(bytes) {
        lemma_compact_len(n);
        assert(bytes =~= compact(n) + rest);
    }
}

/// A count that some bytes start with is the one that they start with.
pub proof fn lemma_counted_is(bytes: Seq<u8>, n: u32, rest: Seq<u8>)
    requires
        bytes == compact(n) + rest,
    ensures
        counted(bytes) == Some((n, rest)),
{
    assert(compact(n).is_prefix_of(bytes));
    let m = choose|m: u32| (#[trigger] compact(m)).is_prefix_of(bytes);
    lemma_compact_prefix(m, n, bytes);
    assert(bytes.skip(compact(n).len() as int) =~= rest);
}

/// Reads a value from the front of the input with the given function.
fn take_with<'a, T, R>(bytes: &'a [u8], read: &R) -> (r: Option<(T, &'a [u8])>) where
    R: Fn(&[u8]) -> Option<(T, usize)>,

    requires
        reads_all::<T, R>(*read),
    ensures
        forall|p: spec_fn(Seq<u8>) -> Option<(T, usize)>| #[trigger]
            reads_as(*read, p) ==> match taken(bytes@, p) {
                Some((x, rest)) => r matches Some((y, left)) && y == x && left@ == rest,
                None => r is None,
            },
        r matches Some((_, left)) ==> left@.len() <= bytes@.len(),
{
    match read(bytes) {
        Some((x, used)) => {
            if used <= bytes.len() {
                let rest = slice_subrange(bytes, used, bytes.len());
                assert(rest@ =~= bytes@.skip(used as int));
                Some((x, rest))
            } else {
                None
            }
        },
        None => None,
    }
}

/// Reads a node from the front of the input.
fn decode_node<'a, H, N, V, RH, RN, RV>(
    bytes: &'a [u8],
    hash: &RH,
    number: &RN,
    data: &RV,
) -> (r: Option<(Node<H, N, V>, &'a [u8])>) where
    RH: Fn(&[u8]) -> Option<(H, usize)>,
    RN: Fn(&[u8]) -> Option<(N, usize)>,
    RV: Fn(&[u8]) -> Option<(V, usize)>,

    requires
        reads_all::<H, RH>(*hash),
        reads_all::<N, RN>(*number),
        reads_all::<V, RV>(*data),
    ensures
        forall|p: Reading<H, N, V>| #[trigger]
            reads(*hash, *number, *data, p) ==> match decoded_node(bytes@, p) {
                Some((b, rest)) => r matches Some((n, left)) && n@ == b && left@ == rest,
                None => r is None,
            },
        r matches Some((_, left)) ==> left@.len() < bytes@.len(),
    decreases bytes@.len(), 1int,
{
    let (node_hash, bytes) = match take_with(bytes, hash) {
        Some(taken) => taken,
        None => {
            return None;
        },
    };
    let (node_number, bytes) = match take_with(bytes, number) {
        Some(taken) => taken,
        None => {
            return None;
        },
    };
    let (node_data, bytes) = match take_with(bytes, data) {
        Some(taken) => taken,
        None => {
            return None;
        },
    };
    match decode_nodes(bytes, hash, number, data) {
        Some((children, bytes)) => {
            let n = Node { hash: node_hash, number: node_number, data: node_data, children };
            assert(node::branches(children@) =~= n@.children);
            Some((n, bytes))
        },
        None => None,
    }
}

/// `r` with more nodes in front.
spec fn preceded<H, N, V>(
    front: Seq<Branch<H, N, V>>,
    r: Option<(Seq<Branch<H, N, V>>, Seq<u8>)>,
) -> Option<(Seq<Branch<H, N, V>>, Seq<u8>)> {
    match r {
        Some((bs, rest)) => Some((front + bs, rest)),
        None => None,
    }
}

/// Reads sibling nodes from the front of the input.
fn decode_nodes<'a, H, N, V, RH, RN, RV>(
    bytes: &'a [u8],
    hash: &RH,
    number: &RN,
    data: &RV,
) -> (r: Option<(Vec<Node<H, N, V>>, &'a [u8])>) where
    RH: Fn(&[u8]) -> Option<(H, usize)>,
    RN: Fn(&[u8]) -> Option<(N, usize)>,
    RV: Fn(&[u8]) -> Option<(V, usize)>,

    requires
        reads_all::<H, RH>(*hash),
        reads_all::<N, RN>(*number),
        reads_all::<V, RV>(*data),
    ensures
        forall|p: Reading<H, N, V>| #[trigger]
            reads(*hash, *number, *data, p) ==> match decoded_nodes(bytes@, p) {
                Some((bs, rest)) => r matches Some((ns, left)) && node::branches(ns@) == bs && left@
                    == rest,
                None => r is None,
            },
        r matches Some((_, left)) ==> left@.len() < bytes@.len(),
    decreases bytes@.len(), 0int,
{
    let (count, start) = match read_compact(bytes) {
        Some(counted) => counted,
        None => {
            return None;
        },
    };
    proof {
        lemma_compact_len(count);
        lemma_counted_is(bytes@, count, start@);
    }
    let mut nodes: Vec<Node<H, N, V>> = Vec::new();
    let mut rest = start;
    let mut left = count;
    proof {
        assert forall|p: Reading<H, N, V>| #[trigger]
            reads(*hash, *number, *data, p) implies decoded_nodes(bytes@, p) == preceded(
            node::branches(nodes@),
            decoded_each(rest@, left as nat, p),
        ) by {
            if let Some((bs, _)) = decoded_each(rest@, left as nat, p) {
                assert(node::branches(nodes@) + bs =~= bs);
            }
        }
    }
    while left > 0
        invariant
            reads_all::<H, RH>(*hash),
            reads_all::<N, RN>(*number),
            reads_all::<V, RV>(*data),
            rest@.len() < bytes@.len(),
            forall|p: Reading<H, N, V>| #[trigger]
                reads(*hash, *number, *data, p) ==> decoded_nodes(bytes@, p) == preceded(
                    node::branches(nodes@),
                    decoded_each(rest@, left as nat, p),
                ),
        decreases left,
    {
        let ghost front = node::branches(nodes@);
        let ghost here = rest@;
        match decode_node(rest, hash, number, data) {
            Some((n, after)) => {
                let ghost b = n@;
                nodes.push(n);
                rest = after;
                proof {
                    assert(node::branches(nodes@) =~= front.push(b));
                    assert forall|p: Reading<H, N, V>| #[trigger]
                        reads(*hash, *number, *data, p) implies decoded_nodes(bytes@, p)
                        == preceded(
                        node::branches(nodes@),
                        decoded_each(rest@, (left - 1) as nat, p),
                    ) by {
                        assert(decoded_node(here, p) == Some((b, rest@)));
                        if let Some((bs, _)) = decoded_each(rest@, (left - 1) as nat, p) {
                            assert(front + (seq![b] + bs) =~= front.push(b) + bs);
                        }
                    }
                }
            },
            None => {
                return None;
            },
        }
        left = left - 1;
    }
    proof {
        assert forall|p: Reading<H, N, V>| #[trigger]
            reads(*hash, *number, *data, p) implies decoded_nodes(bytes@, p) == Some(
            (node::branches(nodes@), rest@),
        ) by {
            assert(node::branches(nodes@) + Seq::<Branch<H, N, V>>::empty() =~= node::branches(
                nodes@,
            ));
        }
    }
    Some((nodes, rest))
}

impl<H, N, V> ForkTree<H, N, V> {
    /// Decode a tree from the front of the given bytes, with the given
    /// functions for its hashes, numbers and data, each of which tells how
    /// many bytes it has read. Returns the tree and the bytes after it.
    pub fn decode_with<'a, RH, RN, RV>(
        bytes: &'a [u8],
        hash: &RH,
        number: &RN,
        data: &RV,
    ) -> (r: Result<(ForkTree<H, N, V>, &'a [u8]), DecodeError>) where
        RH: Fn(&[u8]) -> Option<(H, usize)>,
        RN: Fn(&[u8]) -> Option<(N, usize)>,
        RV: Fn(&[u8]) -> Option<(V, usize)>,

        requires
            reads_all::<H, RH>(*hash),
            reads_all::<N, RN>(*number),
            reads_all::<V, RV>(*data),
        ensures
            forall|p: Reading<H, N, V>| #[trigger]
                reads(*hash, *number, *data, p) ==> match decoded(bytes@, p) {
                    Ok((t, rest)) => r matches Ok((tree, left)) && tree@ == t && left@ == rest,
                    Err(e) => r == Err::<(ForkTree<H, N, V>, &'a [u8]), _>(e),
                },
    {
        let (roots, rest) = match decode_nodes(bytes, hash, number, data) {
            Some(decoded) => decoded,
            None => {
                return Err(DecodeError::Roots);
            },
        };
        if rest.len() == 0 {
            return Err(DecodeError::BestFinalizedNumber);
        }
        let after = slice_subrange(rest, 1, rest.len());
        assert(after@ =~= rest@.skip(1));
        if rest[0] == 0 {
            Ok((ForkTree { roots, best_finalized_number: None }, after))
        } else if rest[0] == 1 {
            match take_with(after, number) {
                Some((best, left)) => Ok(
                    (ForkTree { roots, best_finalized_number: Some(best) }, left),
                ),
                None => Err(DecodeError::BestFinalizedNumber),
            }
        } else {
            Err(DecodeError::BestFinalizedNumber)
        }
    }
}

} // verus!
