//! The bytes of a tree.

use fork_tree::{DecodeError, ForkTree, Node};
use parity_scale_codec::{Decode, Encode, Error, Input, Output};

type Tree = ForkTree<u32, u64, Vec<u8>>;

/// A node that is encoded field by field by the codec itself.
#[derive(Debug, PartialEq)]
struct PlainNode {
    hash: u32,
    number: u64,
    data: Vec<u8>,
    children: Vec<PlainNode>,
}

impl Encode for PlainNode {
    fn encode_to<W: Output>(&self, dest: &mut W) {
        dest.push(&self.hash);
        dest.push(&self.number);
        dest.push(&self.data);
        dest.push(&self.children);
    }
}

impl Decode for PlainNode {
    fn decode<I: Input>(input: &mut I) -> Result<Self, Error> {
        Ok(PlainNode {
            hash: Decode::decode(input)?,
            number: Decode::decode(input)?,
            data: Decode::decode(input)?,
            children: Decode::decode(input)?,
        })
    }
}

fn plain(nodes: &Vec<Node<u32, u64, Vec<u8>>>) -> Vec<PlainNode> {
    nodes
        .iter()
        .map(|node| PlainNode {
            hash: node.hash,
            number: node.number,
            data: node.data.clone(),
            children: plain(&node.children),
        })
        .collect()
}

fn leaf(hash: u32, number: u64, data: Vec<u8>) -> Node<u32, u64, Vec<u8>> {
    Node { hash, number, data, children: Vec::new() }
}

fn leaves(count: u32) -> Vec<Node<u32, u64, Vec<u8>>> {
    (0..count).map(|i| leaf(i, 7, Vec::new())).collect()
}

fn read<T: Decode>(bytes: &[u8]) -> Option<(T, usize)> {
    let mut rest = bytes;
    let value = T::decode(&mut rest).ok()?;
    Some((value, bytes.len() - rest.len()))
}

fn encode(tree: &Tree) -> Vec<u8> {
    tree.encode_with(
        &|hash: &u32| hash.encode(),
        &|number: &u64| number.encode(),
        &|data: &Vec<u8>| data.encode(),
    )
}

fn decode(bytes: &[u8]) -> Result<(Tree, &[u8]), DecodeError> {
    ForkTree::decode_with(bytes, &read::<u32>, &read::<u64>, &read::<Vec<u8>>)
}

fn small_tree() -> Tree {
    let mut top = leaf(1, 10, vec![5, 6]);
    top.children.push(leaf(2, 11, vec![]));
    top.children.push(leaf(3, 12, vec![9]));
    ForkTree { roots: vec![top, leaf(4, 13, vec![])], best_finalized_number: Some(9) }
}

#[test]
fn bytes_of_an_empty_tree() {
    assert_eq!(encode(&ForkTree::new()), vec![0, 0]);
    assert_eq!(decode(&[0, 0]), Ok((ForkTree::new(), &[][..])));
}

#[test]
fn bytes_of_a_tree_with_one_root() {
    let tree = ForkTree { roots: vec![leaf(258, 3, vec![7])], best_finalized_number: Some(2) };
    let bytes = vec![
        4, // one root
        2, 1, 0, 0, // hash
        3, 0, 0, 0, 0, 0, 0, 0, // number
        4, 7, // data
        0, // no children
        1, 2, 0, 0, 0, 0, 0, 0, 0, // best finalized number
    ];
    assert_eq!(encode(&tree), bytes);
    assert_eq!(decode(&bytes), Ok((tree, &[][..])));
}

#[test]
fn bytes_are_those_of_the_codec() {
    let mut trees = vec![ForkTree::new(), small_tree()];
    for count in [1, 63, 64, 100, 16383, 16384, 20000] {
        let mut top = leaf(0, 1, vec![1; 70]);
        top.children = leaves(count);
        trees.push(ForkTree { roots: vec![top], best_finalized_number: None });
        trees.push(ForkTree { roots: leaves(count), best_finalized_number: Some(6) });
    }
    for tree in trees {
        let bytes = (plain(&tree.roots), tree.best_finalized_number).encode();
        assert_eq!(encode(&tree), bytes);
        let read = <(Vec<PlainNode>, Option<u64>)>::decode(&mut &bytes[..]).unwrap();
        assert_eq!(read, (plain(&tree.roots), tree.best_finalized_number));
        assert_eq!(decode(&bytes), Ok((tree, &[][..])));
    }
}

#[test]
fn bytes_after_a_tree_are_left() {
    let tree = small_tree();
    let mut bytes = encode(&tree);
    bytes.extend_from_slice(&[1, 2, 3]);
    assert_eq!(decode(&bytes), Ok((tree, &[1, 2, 3][..])));
}

#[test]
fn what_is_decoded_is_what_was_encoded() {
    let bytes = encode(&small_tree());
    for i in 0..bytes.len() {
        for flip in [1u8, 2, 4, 128] {
            let mut other = bytes.clone();
            other[i] ^= flip;
            if let Ok((tree, rest)) = decode(&other) {
                let mut again = encode(&tree);
                again.extend_from_slice(rest);
                assert_eq!(again, other);
            }
        }
    }
}

#[test]
fn a_cut_off_tree_is_not_decoded() {
    let tree = small_tree();
    let bytes = encode(&tree);
    // the best finalized number takes the last nine bytes
    for len in 0..bytes.len() {
        let expected = if len < bytes.len() - 9 {
            DecodeError::Roots
        } else {
            DecodeError::BestFinalizedNumber
        };
        assert_eq!(decode(&bytes[..len]), Err(expected));
    }
}

#[test]
fn roots_that_are_not_well_formed() {
    // a count of one that takes two bytes
    assert_eq!(decode(&[5, 0, 0]), Err(DecodeError::Roots));
    // a count of one that takes four bytes
    assert_eq!(decode(&[6, 0, 0, 0, 0]), Err(DecodeError::Roots));
    // a count of one that takes five bytes
    assert_eq!(decode(&[3, 1, 0, 0, 0, 0]), Err(DecodeError::Roots));
    // a count that takes more than five bytes
    assert_eq!(decode(&[7, 0, 0, 0, 0, 1, 0]), Err(DecodeError::Roots));
    // more roots than there are bytes
    assert_eq!(decode(&[252, 0, 0]), Err(DecodeError::Roots));
    assert_eq!(decode(&[]), Err(DecodeError::Roots));
}

#[test]
fn a_number_that_is_not_well_formed() {
    assert_eq!(decode(&[0]), Err(DecodeError::BestFinalizedNumber));
    assert_eq!(decode(&[0, 2]), Err(DecodeError::BestFinalizedNumber));
    assert_eq!(decode(&[0, 1, 0, 0]), Err(DecodeError::BestFinalizedNumber));
}

#[test]
fn a_reader_cannot_take_more_than_there_is() {
    let greedy = |bytes: &[u8]| Some((0u32, bytes.len() + 1));
    let tree = small_tree();
    let bytes = encode(&tree);
    assert_eq!(
        ForkTree::decode_with(&bytes, &greedy, &read::<u64>, &read::<Vec<u8>>).map(|(t, _)| t),
        Err(DecodeError::Roots)
    );
}

#[test]
fn decode_errors_in_words() {
    assert_eq!(DecodeError::Roots.message(), "Error decoding field ForkTree.roots");
    assert_eq!(
        DecodeError::BestFinalizedNumber.message(),
        "Error decoding field ForkTree.best_finalized_number"
    );
}
