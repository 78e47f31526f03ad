//! Empty trees, errors of the client and what is reported in words.

use fork_tree::{Error, FinalizationResult, FindOutcome, ForkTree, Node};

#[derive(Clone, Debug, PartialEq)]
struct Lost;

impl std::fmt::Display for Lost {
    fn fmt(&self, f: &mut std::fmt::Formatter) -> std::fmt::Result {
        f.write_str("the block is lost")
    }
}

type Tree = ForkTree<u8, u8, char>;

fn never(_: &u8, _: &u8) -> Result<bool, Lost> {
    Ok(false)
}

fn fails(_: &u8, _: &u8) -> Result<bool, Lost> {
    Err(Lost)
}

/// Blocks are numbered along one chain.
fn chain(base: &u8, block: &u8) -> Result<bool, Lost> {
    Ok(base < block)
}

fn chain_of(count: u8) -> Tree {
    let mut tree = ForkTree::new();
    for i in 1..=count {
        tree.import(i, i, (b'a' + i) as char, &chain).unwrap();
    }
    tree
}

#[test]
fn an_empty_tree() {
    let mut tree: Tree = ForkTree::new();
    assert!(tree.roots().is_empty());
    assert!(tree.iter().is_empty());
    assert_eq!(tree.best_finalized_number, None);
    tree.rebalance();
    assert_eq!(tree.find_node_index_where(&1, &1, &never, &|_| true), Ok(None));
    assert_eq!(tree.find_node_where(&1, &1, &never, &|_| true), Ok(None));
    assert_eq!(tree.find_node_where_mut(&1, &1, &never, &|_| true), Ok(None));
    assert_eq!(tree.prune(&1, &1, &never, &|_| true), Ok(vec![]));
    assert_eq!(tree.finalize_root(&1), None);
    assert_eq!(tree.finalizes_any_with_descendent_if(&1, 1, &never, |_| true), Ok(None));
    assert_eq!(tree, ForkTree::new());
    assert_eq!(tree.finalize(&1, 1, &never), Ok(FinalizationResult::Unchanged));
    assert_eq!(tree.finalize_with_ancestors(&1, 2, &never), Ok(FinalizationResult::Unchanged));
    assert_eq!(
        tree.finalize_with_descendent_if(&1, 3, &never, |_| true),
        Ok(FinalizationResult::Unchanged)
    );
    assert_eq!(tree.best_finalized_number, Some(3));
}

#[test]
fn client_errors_are_passed_on() {
    let mut tree = chain_of(3);
    let before = tree.clone();
    assert_eq!(tree.import(9, 9, 'x', &fails), Err(Error::Client(Lost)));
    assert_eq!(
        tree.find_node_index_where(&9, &9, &fails, &|_| true),
        Err(Error::Client(Lost))
    );
    assert_eq!(tree.find_node_where(&9, &9, &fails, &|_| true), Err(Error::Client(Lost)));
    assert_eq!(tree.find_node_where_mut(&9, &9, &fails, &|_| true), Err(Error::Client(Lost)));
    assert_eq!(tree.prune(&9, &9, &fails, &|_| true), Err(Error::Client(Lost)));
    assert_eq!(tree.finalize(&9, 9, &fails), Err(Error::Client(Lost)));
    assert_eq!(
        tree.finalizes_any_with_descendent_if(&9, 9, &fails, |_| true),
        Err(Error::Client(Lost))
    );
    assert_eq!(
        tree.finalize_with_descendent_if(&9, 9, &fails, |_| true),
        Err(Error::Client(Lost))
    );
    assert_eq!(tree, before);
}

#[test]
fn a_client_error_counts_as_not_related_when_roots_are_kept() {
    let mut tree = chain_of(3);
    assert_eq!(tree.finalize(&0, 0, &fails), Ok(FinalizationResult::Changed(None)));
    assert!(tree.roots.is_empty());
    let mut tree = chain_of(3);
    assert_eq!(
        tree.finalize_with_ancestors(&9, 9, &fails),
        Ok(FinalizationResult::Changed(None))
    );
    assert!(tree.roots.is_empty());
}

#[test]
fn a_client_that_is_not_needed_is_not_asked() {
    let mut tree = chain_of(3);
    // the target is below every node
    assert_eq!(tree.find_node_where(&0, &0, &fails, &|_| true), Ok(None));
    // the root is known by its hash
    assert_eq!(tree.import(1, 1, 'x', &fails), Err(Error::Duplicate));
    assert_eq!(tree.finalize(&1, 1, &fails), Ok(FinalizationResult::Changed(Some('b'))));
    assert_eq!(tree.import(5, 1, 'x', &fails), Err(Error::Revert));
}

#[test]
fn a_root_is_finalized_whatever_its_number() {
    let mut tree = chain_of(3);
    assert_eq!(tree.finalize(&1, 200, &chain), Ok(FinalizationResult::Changed(Some('b'))));
    assert_eq!(tree.best_finalized_number, Some(1));
    assert_eq!(tree.finalize_root(&3), None);
    assert_eq!(tree.finalize_root(&2), Some('c'));
    assert_eq!(tree.best_finalized_number, Some(2));
}

#[test]
fn outcomes_of_a_search_within_a_node() {
    let tree = chain_of(3);
    let root: &Node<u8, u8, char> = &tree.roots[0];
    assert_eq!(
        root.find_node_index_where(&9, &9, &chain, &|_| true),
        Ok(FindOutcome::Found(vec![0, 0]))
    );
    assert_eq!(
        root.find_node_index_where(&9, &9, &chain, &|d| *d == 'b'),
        Ok(FindOutcome::Found(vec![]))
    );
    assert_eq!(
        root.find_node_index_where(&9, &9, &chain, &|d| *d == 'z'),
        Ok(FindOutcome::Failure(true))
    );
    assert_eq!(
        root.find_node_index_where(&9, &9, &never, &|_| true),
        Ok(FindOutcome::Failure(false))
    );
    assert_eq!(
        root.find_node_index_where(&0, &0, &chain, &|_| true),
        Ok(FindOutcome::Failure(false))
    );
    assert!(matches!(
        root.find_node_where(&9, &9, &chain, &|d| *d == 'c'),
        Ok(FindOutcome::Found(node)) if node.hash == 2
    ));
}

#[test]
fn an_import_within_a_node() {
    let mut tree = chain_of(2);
    let root = &mut tree.roots[0];
    assert_eq!(root.import(1, 9, 'x', &chain), Err(Error::Duplicate));
    assert_eq!(root.import(2, 9, 'x', &chain), Err(Error::Duplicate));
    // what does not belong below the node is handed back
    assert_eq!(root.import(9, 9, 'x', &never), Ok(Some((9, 9, 'x'))));
    assert_eq!(root.import(9, 9, 'x', &chain), Ok(None));
    assert_eq!(root.children[0].children[0].hash, 9);
    assert_eq!(root.import(10, 9, 'x', &fails), Err(Error::Client(Lost)));
}

#[test]
fn rebalancing_within_a_node() {
    let leaf = |hash: u8| Node { hash, number: 0u8, data: 'x', children: vec![] };
    let mut node = leaf(1);
    let mut deep = leaf(3);
    deep.children = vec![leaf(4)];
    node.children = vec![leaf(2), deep, leaf(5)];
    node.rebalance();
    assert_eq!(node.children.iter().map(|n| n.hash).collect::<Vec<_>>(), vec![3, 2, 5]);
    assert_eq!(node.max_depth(), 3);
}

#[test]
fn errors_in_words() {
    assert_eq!(Error::<Lost>::Duplicate.message(), "Hash already exists in Tree");
    assert_eq!(
        Error::<Lost>::UnfinalizedAncestor.message(),
        "Finalized descendent of Tree node without finalizing its ancestor(s) first"
    );
    assert_eq!(
        Error::<Lost>::Revert.message(),
        "Tried to import or finalize node that is an ancestor of a previously finalized node"
    );
    assert_eq!(Error::Client(Lost).message(), "Client error: the block is lost");
}

#[test]
fn an_error_of_the_client_becomes_one_of_the_tree() {
    assert_eq!(Error::from(Lost), Error::Client(Lost));
}

#[test]
fn mapping_reaches_a_node_after_its_children() {
    let mut tree = chain_of(3);
    tree.import(200, 2, 'z', &never).unwrap();
    let mut calls: Vec<u8> = Vec::new();
    let mapped = tree.map(&mut |hash: &u8, _: &u8, _: char| {
        calls.push(*hash);
        calls.len()
    });
    assert_eq!(calls, vec![3, 2, 1, 200]);
    let counts: Vec<(u8, usize)> =
        mapped.iter().into_iter().map(|(h, _, count)| (*h, *count)).collect();
    assert_eq!(counts, vec![(1, 3), (2, 2), (3, 1), (200, 4)]);
}

#[test]
fn a_client_error_is_the_one_that_the_client_returned() {
    // the client fails in another way at every question
    let asked = std::cell::Cell::new(0);
    let fails = |_: &u8, _: &u8| -> Result<bool, u8> {
        asked.set(asked.get() + 1);
        Err(asked.get())
    };
    let mut tree = chain_of(3);
    let before = tree.clone();
    assert_eq!(tree.import(9, 9, 'x', &fails), Err(Error::Client(1)));
    assert_eq!(tree.finalize(&9, 9, &fails), Err(Error::Client(2)));
    assert_eq!(tree.prune(&9, &9, &fails, &|_| true), Err(Error::Client(3)));
    assert_eq!(
        tree.finalize_with_descendent_if(&9, 9, &fails, |_| true),
        Err(Error::Client(4))
    );
    assert_eq!(tree, before);
}

#[test]
fn only_nodes_that_pass_the_predicate_are_asked_about() {
    let asked = std::cell::RefCell::new(Vec::new());
    let is_descendent_of = |base: &u8, block: &u8| -> Result<bool, Lost> {
        asked.borrow_mut().push((*base, *block));
        chain(base, block)
    };
    let tree = chain_of(4);
    // 2 passes, and its child 3 is asked about next
    assert_eq!(
        tree.finalizes_any_with_descendent_if(&9, 9, &is_descendent_of, |d| *d == 'c'),
        Err(Error::UnfinalizedAncestor)
    );
    assert_eq!(asked.take(), vec![(2, 9), (3, 9)]);
    assert_eq!(
        tree.finalizes_any_with_descendent_if(&9, 9, &is_descendent_of, |_| false),
        Ok(None)
    );
    assert!(asked.take().is_empty());
}

#[test]
fn roots_that_are_kept_keep_their_order() {
    let mut tree: Tree = ForkTree::new();
    for hash in [10, 20, 30, 40, 50] {
        tree.import(hash, 5, 'x', &never).unwrap();
    }
    let some = |base: &u8, block: &u8| -> Result<bool, Lost> { Ok(*base == 1 && *block != 30) };
    assert_eq!(tree.finalize(&1, 1, &some), Ok(FinalizationResult::Changed(None)));
    let left: Vec<u8> = tree.roots().into_iter().map(|(h, _, _)| *h).collect();
    assert_eq!(left, vec![10, 20, 40, 50]);
    let fewer = |base: &u8, block: &u8| -> Result<bool, Lost> { Ok(*base == 2 && *block != 10) };
    assert_eq!(
        tree.finalize_with_descendent_if(&2, 2, &fewer, |_| true),
        Ok(FinalizationResult::Changed(None))
    );
    let left: Vec<u8> = tree.roots().into_iter().map(|(h, _, _)| *h).collect();
    assert_eq!(left, vec![20, 40, 50]);
}
