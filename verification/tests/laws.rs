//! What holds of the tree as a whole, on one tree of blocks.

use fork_tree::{Error, FinalizationResult, ForkTree, Node};

type Tree = ForkTree<u32, u64, char>;

/// The blocks: hash, parent, number and data. There are two roots, `1` and
/// `20`, and `20` is the start of a short fork of its own.
const BLOCKS: [(u32, u32, u64, char); 12] = [
    (1, 0, 1, 'a'),
    (2, 1, 2, 'b'),
    (3, 1, 2, 'c'),
    (4, 3, 3, 'd'),
    (5, 3, 4, 'e'),
    (6, 5, 6, 'f'),
    (7, 6, 7, 'g'),
    (8, 4, 5, 'h'),
    (9, 2, 9, 'i'),
    (20, 0, 2, 'j'),
    (21, 20, 3, 'k'),
    (22, 20, 4, 'l'),
];

/// Blocks that are not in the tree: a child of `5`, a child of `7`, a block
/// before `1` and `20` and an unrelated block.
const OTHERS: [(u32, u32); 4] = [(105, 5), (107, 7), (0, 0), (999, 999)];

fn parent(block: u32) -> Option<u32> {
    BLOCKS
        .iter()
        .map(|b| (b.0, b.1))
        .chain(OTHERS.iter().copied())
        .find(|(hash, parent)| *hash == block && hash != parent)
        .map(|(_, parent)| parent)
}

fn is_ancestor(base: u32, block: u32) -> bool {
    let mut at = parent(block);
    while let Some(hash) = at {
        if hash == base {
            return true;
        }
        at = parent(hash);
    }
    false
}

fn is_descendent_of(base: &u32, block: &u32) -> Result<bool, String> {
    Ok(is_ancestor(*base, *block))
}

fn tree() -> Tree {
    let mut tree = ForkTree::new();
    for (hash, _, number, data) in BLOCKS {
        tree.import(hash, number, data, &is_descendent_of).unwrap();
    }
    tree
}

fn all_nodes(tree: &Tree) -> Vec<(u32, u64, char)> {
    let mut nodes: Vec<(u32, u64, char)> =
        tree.iter().into_iter().map(|(h, n, d)| (*h, *n, *d)).collect();
    nodes.sort();
    nodes
}

fn hashes(tree: &Tree) -> Vec<u32> {
    tree.iter().into_iter().map(|(h, _, _)| *h).collect()
}

fn roots(tree: &Tree) -> Vec<u32> {
    tree.roots().into_iter().map(|(h, _, _)| *h).collect()
}

fn depth(node: &Node<u32, u64, char>) -> usize {
    1 + node.children.iter().map(depth).max().unwrap_or(0)
}

fn is_balanced(nodes: &Vec<Node<u32, u64, char>>) -> bool {
    nodes.windows(2).all(|pair| depth(&pair[0]) >= depth(&pair[1]))
        && nodes.iter().all(|node| is_balanced(&node.children))
}

/// Every parent is an ancestor of its children, and siblings are not related.
fn shows_ancestry(nodes: &Vec<Node<u32, u64, char>>) -> bool {
    nodes.iter().enumerate().all(|(i, a)| {
        nodes.iter().enumerate().all(|(j, b)| {
            i == j || a.hash != b.hash && !is_ancestor(a.hash, b.hash)
        }) && a.children.iter().all(|c| is_ancestor(a.hash, c.hash))
            && shows_ancestry(&a.children)
    })
}

/// All nodes with their depth, the root at depth one.
fn with_depth(nodes: &Vec<Node<u32, u64, char>>, at: usize) -> Vec<(u32, char, usize)> {
    nodes
        .iter()
        .flat_map(|n| {
            let mut all = vec![(n.hash, n.data, at)];
            all.extend(with_depth(&n.children, at + 1));
            all
        })
        .collect()
}

#[test]
fn an_import_adds_one_node_and_leaves_the_tree_balanced() {
    let mut tree = ForkTree::new();
    let mut expected = Vec::new();
    for (hash, parent, number, data) in BLOCKS {
        let is_root = tree.import(hash, number, data, &is_descendent_of).unwrap();
        assert_eq!(is_root, parent == 0);
        expected.push((hash, number, data));
        expected.sort();
        assert_eq!(all_nodes(&tree), expected);
        assert!(is_balanced(&tree.roots));
        assert!(shows_ancestry(&tree.roots));
    }
}

#[test]
fn rebalancing_keeps_the_nodes_and_the_depth() {
    let mut tree = tree();
    tree.roots.reverse();
    tree.roots[1].children.reverse();
    assert!(!is_balanced(&tree.roots));
    let before = all_nodes(&tree);
    let deepest = tree.roots.iter().map(|n| n.max_depth()).max();

    tree.rebalance();
    assert!(is_balanced(&tree.roots));
    assert!(shows_ancestry(&tree.roots));
    assert_eq!(all_nodes(&tree), before);
    assert_eq!(tree.roots.iter().map(|n| n.max_depth()).max(), deepest);

    let once = tree.clone();
    tree.rebalance();
    assert_eq!(tree, once);
}

#[test]
fn rebalancing_keeps_the_order_of_equally_deep_siblings() {
    let never = |_: &u32, _: &u32| -> Result<bool, String> { Ok(false) };
    let mut tree: Tree = ForkTree::new();
    for hash in [5, 3, 9, 1] {
        tree.import(hash, 1, 'x', &never).unwrap();
    }
    assert_eq!(roots(&tree), vec![5, 3, 9, 1]);
    tree.import(90, 2, 'y', &|base: &u32, _: &u32| -> Result<bool, String> { Ok(*base == 9) })
        .unwrap();
    assert_eq!(roots(&tree), vec![9, 5, 3, 1]);
}

#[test]
fn max_depth_counts_the_longest_chain() {
    let tree = tree();
    assert_eq!(tree.roots[0].hash, 1);
    assert_eq!(tree.roots[0].max_depth(), 5);
    assert_eq!(tree.roots[1].hash, 20);
    assert_eq!(tree.roots[1].max_depth(), 2);
    assert_eq!(tree.roots[1].children[0].max_depth(), 1);
}

#[test]
fn a_search_finds_the_deepest_ancestor_that_passes() {
    let tree = tree();
    let targets: Vec<(u32, u64)> = BLOCKS
        .iter()
        .map(|b| (b.0, b.2))
        .chain(vec![(105, 5), (107, 8), (0, 0), (999, 50)])
        .collect();
    for (hash, number) in targets {
        for predicate in [|_: &char| true, |d: &char| *d < 'd', |d: &char| *d > 'z'] {
            let found = tree
                .find_node_where(&hash, &number, &is_descendent_of, &predicate)
                .unwrap()
                .map(|n| n.hash);
            let expected = with_depth(&tree.roots, 1)
                .into_iter()
                .filter(|(h, d, _)| is_ancestor(*h, hash) && predicate(d))
                .max_by_key(|(_, _, depth)| *depth)
                .map(|(h, _, _)| h);
            assert_eq!(found, expected);
        }
    }
}

#[test]
fn the_three_searches_agree() {
    let mut tree = tree();
    for (hash, _, number, _) in BLOCKS {
        let path = tree.find_node_index_where(&hash, &number, &is_descendent_of, &|_| true).unwrap();
        let found = tree
            .find_node_where(&hash, &number, &is_descendent_of, &|_| true)
            .unwrap()
            .map(|n| n.hash);
        let by_path = path.map(|mut path| {
            let mut at = &tree.roots[path.pop().unwrap()];
            while let Some(i) = path.pop() {
                at = &at.children[i];
            }
            at.hash
        });
        assert_eq!(by_path, found);
        let found_mut = tree
            .find_node_where_mut(&hash, &number, &is_descendent_of, &|_| true)
            .unwrap()
            .map(|n| n.hash);
        assert_eq!(found_mut, found);
    }
}

#[test]
fn what_is_found_can_be_changed() {
    let mut tree = tree();
    let before = all_nodes(&tree);
    let node = tree
        .find_node_where_mut(&107, &8, &is_descendent_of, &|d| *d < 'g')
        .unwrap()
        .unwrap();
    assert_eq!(node.hash, 6);
    node.data = 'z';
    let mut expected = before;
    let at = expected.iter().position(|n| n.0 == 6).unwrap();
    expected[at].2 = 'z';
    assert_eq!(all_nodes(&tree), expected);
}

#[test]
fn no_node_is_imported_twice() {
    let mut tree = tree();
    let before = tree.clone();
    for (hash, _, number, _) in BLOCKS {
        assert_eq!(
            tree.import(hash, number, 'x', &is_descendent_of),
            Err(Error::Duplicate)
        );
        assert_eq!(tree, before);
    }
}

#[test]
fn nothing_at_or_below_the_finalized_number_is_accepted() {
    let mut tree = tree();
    assert_eq!(
        tree.finalize(&1, 1, &is_descendent_of),
        Ok(FinalizationResult::Changed(Some('a')))
    );
    assert_eq!(
        tree.finalize(&3, 2, &is_descendent_of),
        Ok(FinalizationResult::Changed(Some('c')))
    );
    let before = tree.clone();
    for number in [0, 1, 2] {
        assert_eq!(tree.import(50, number, 'x', &is_descendent_of), Err(Error::Revert));
        assert_eq!(tree.finalize(&5, number, &is_descendent_of), Err(Error::Revert));
        assert_eq!(tree.finalize_with_ancestors(&5, number, &is_descendent_of), Err(Error::Revert));
        assert_eq!(
            tree.finalize_with_descendent_if(&5, number, &is_descendent_of, |_| true),
            Err(Error::Revert)
        );
        assert_eq!(
            tree.finalizes_any_with_descendent_if(&5, number, &is_descendent_of, |_| true),
            Err(Error::Revert)
        );
    }
    assert_eq!(tree, before);
}

#[test]
fn nodes_are_finalized_in_order() {
    let mut tree = tree();
    let before = tree.clone();
    for (hash, parent, number, _) in BLOCKS {
        if parent != 0 {
            assert_eq!(
                tree.finalize(&hash, number, &is_descendent_of),
                Err(Error::UnfinalizedAncestor)
            );
            assert_eq!(tree, before);
        }
    }
}

#[test]
fn finalizing_before_the_roots_keeps_their_descendants() {
    let mut tree = tree();
    // both roots descend from the block before them
    assert_eq!(tree.finalize(&0, 0, &is_descendent_of), Ok(FinalizationResult::Unchanged));
    assert_eq!(roots(&tree), vec![1, 20]);
    assert_eq!(tree.best_finalized_number, Some(0));
    // no root descends from an unrelated block
    assert_eq!(tree.finalize(&999, 1, &is_descendent_of), Ok(FinalizationResult::Changed(None)));
    assert!(tree.roots.is_empty());
    assert_eq!(tree.best_finalized_number, Some(1));
}

#[test]
fn finalizing_only_removes_nodes() {
    for (hash, _, number, _) in BLOCKS {
        for way in 0..3 {
            let mut tree = tree();
            let before = all_nodes(&tree);
            let _ = match way {
                0 => tree.finalize(&hash, number, &is_descendent_of),
                1 => tree.finalize_with_ancestors(&hash, number, &is_descendent_of),
                _ => tree.finalize_with_descendent_if(&hash, number, &is_descendent_of, |_| true),
            };
            assert!(all_nodes(&tree).iter().all(|n| before.contains(n)));
            assert!(shows_ancestry(&tree.roots));
        }
    }
}

#[test]
fn any_node_can_be_finalized_with_its_ancestors() {
    for (hash, _, number, data) in BLOCKS {
        let mut tree = tree();
        assert_eq!(
            tree.finalize_with_ancestors(&hash, number, &is_descendent_of),
            Ok(FinalizationResult::Changed(Some(data)))
        );
        assert_eq!(tree.best_finalized_number, Some(number));
        let mut children: Vec<u32> =
            BLOCKS.iter().filter(|b| b.1 == hash).map(|b| b.0).collect();
        let mut now = roots(&tree);
        children.sort();
        now.sort();
        assert_eq!(now, children);
        assert!(all_nodes(&tree).iter().all(|n| n.1 > number && is_ancestor(hash, n.0)));
    }
}

#[test]
fn finalizing_a_block_outside_the_tree_with_ancestors() {
    // a child of 5, next to 6
    let mut tree = tree();
    assert_eq!(
        tree.finalize_with_ancestors(&105, 5, &is_descendent_of),
        Ok(FinalizationResult::Changed(None))
    );
    assert!(tree.roots.is_empty());
    assert_eq!(tree.best_finalized_number, Some(5));
}

#[test]
fn finalized_numbers_rise() {
    let mut tree = tree();
    let mut last = None;
    for (hash, number) in [(1, 1), (3, 2), (5, 4), (6, 6), (7, 7)] {
        tree.finalize(&hash, number, &is_descendent_of).unwrap();
        assert!(tree.best_finalized_number > last);
        last = tree.best_finalized_number;
        assert!(all_nodes(&tree).iter().all(|n| Some(n.1) > last));
    }
    assert!(tree.roots.is_empty());
}

#[test]
fn a_root_is_finalized_by_a_descendent() {
    let mut tree = tree();
    tree.finalize(&1, 1, &is_descendent_of).unwrap();
    tree.finalize(&3, 2, &is_descendent_of).unwrap();
    assert_eq!(roots(&tree), vec![5, 4]);
    // past a child of the root
    let before = tree.clone();
    assert_eq!(
        tree.finalizes_any_with_descendent_if(&107, 8, &is_descendent_of, |d| *d == 'e'),
        Err(Error::UnfinalizedAncestor)
    );
    assert_eq!(
        tree.finalize_with_descendent_if(&107, 8, &is_descendent_of, |d| *d == 'e'),
        Err(Error::UnfinalizedAncestor)
    );
    assert_eq!(tree, before);
    // by a block that is not past any child
    assert_eq!(
        tree.finalizes_any_with_descendent_if(&105, 5, &is_descendent_of, |_| true),
        Ok(Some(true))
    );
    assert_eq!(
        tree.finalize_with_descendent_if(&105, 5, &is_descendent_of, |_| true),
        Ok(FinalizationResult::Changed(Some('e')))
    );
    assert!(tree.roots.is_empty());
    assert_eq!(tree.best_finalized_number, Some(5));
}

#[test]
fn if_no_node_is_finalized_no_root_is() {
    let mut tree = tree();
    assert_eq!(
        tree.finalizes_any_with_descendent_if(&105, 5, &is_descendent_of, |d| *d > 'z'),
        Ok(None)
    );
    assert_eq!(
        tree.finalize_with_descendent_if(&105, 5, &is_descendent_of, |d| *d > 'z'),
        Ok(FinalizationResult::Changed(None))
    );
    // the root that leads to the block stays
    assert_eq!(roots(&tree), vec![1]);
    assert_eq!(tree.best_finalized_number, Some(5));
}

#[test]
fn a_node_below_the_roots_is_reported_as_such() {
    let tree = tree();
    assert_eq!(
        tree.finalizes_any_with_descendent_if(&105, 5, &is_descendent_of, |d| *d == 'e'),
        Ok(Some(false))
    );
}

#[test]
fn pruning_loses_no_node() {
    for (hash, number) in [(7, 7), (8, 5), (105, 5), (107, 8), (22, 4), (999, 50)] {
        for predicate in [|_: &char| true, |d: &char| *d < 'd', |d: &char| *d > 'z'] {
            let mut tree = tree();
            let before = all_nodes(&tree);
            let target = tree
                .find_node_where(&hash, &number, &is_descendent_of, &predicate)
                .unwrap()
                .map(|n| n.hash);
            let unpruned = tree.clone();
            let mut nodes = tree.prune(&hash, &number, &is_descendent_of, &predicate).unwrap();
            match target {
                Some(root) => {
                    assert_eq!(roots(&tree), vec![root]);
                    let children = &tree.roots[0].children;
                    assert!(children.len() <= 1);
                    assert!(children
                        .iter()
                        .all(|c| c.hash == hash || is_ancestor(c.hash, hash)));
                },
                None => {
                    assert_eq!(tree, unpruned);
                    assert!(nodes.is_empty());
                },
            }
            assert_eq!(tree.best_finalized_number, unpruned.best_finalized_number);
            nodes.extend(all_nodes(&tree));
            nodes.sort();
            assert_eq!(nodes, before);
            assert!(is_balanced(&tree.roots));
            assert!(shows_ancestry(&tree.roots));
        }
    }
}

#[test]
fn pruning_without_a_match_keeps_the_order_of_the_tree() {
    let mut tree = tree();
    tree.roots.reverse();
    let before = tree.clone();
    assert_eq!(tree.prune(&7, &7, &is_descendent_of, &|d| *d > 'z'), Ok(vec![]));
    assert_eq!(tree, before);
}

#[test]
fn pruned_nodes_in_order() {
    let mut tree = tree();
    let removed: Vec<u32> = tree
        .prune(&7, &7, &is_descendent_of, &|d| *d == 'c')
        .unwrap()
        .into_iter()
        .map(|(h, _, _)| h)
        .collect();
    assert_eq!(removed, vec![4, 8, 20, 21, 22, 1, 2, 9]);
    assert_eq!(hashes(&tree), vec![3, 5, 6, 7]);
}

#[test]
fn an_iteration_visits_descendants_right_after_their_node() {
    let tree = tree();
    assert_eq!(hashes(&tree), vec![1, 3, 5, 6, 7, 4, 8, 2, 9, 20, 21, 22]);
    let order = hashes(&tree);
    for (i, hash) in order.iter().enumerate() {
        let below = BLOCKS.iter().filter(|b| is_ancestor(*hash, b.0)).count();
        assert!(order[i + 1..i + 1 + below].iter().all(|h| is_ancestor(*hash, *h)));
    }
}

#[test]
fn mapping_keeps_everything_but_the_data() {
    let before = tree();
    let mapped = before.clone().map(&mut |h: &u32, n: &u64, d: char| (*h as u64 + *n, d));
    assert_eq!(mapped.best_finalized_number, before.best_finalized_number);
    let old = before.iter();
    let new = mapped.iter();
    assert_eq!(old.len(), new.len());
    for (a, b) in old.into_iter().zip(new) {
        assert_eq!((a.0, a.1), (b.0, b.1));
        assert_eq!(*b.2, (*a.0 as u64 + *a.1, *a.2));
    }
    assert_eq!(before.clone().map(&mut |_: &u32, _: &u64, d: char| d), before);
}

#[test]
fn checking_beforehand_tells_whether_a_root_is_finalized() {
    let targets: Vec<(u32, u64)> = BLOCKS
        .iter()
        .map(|b| (b.0, b.2))
        .chain(vec![(105, 5), (107, 8), (0, 0), (999, 50)])
        .collect();
    for (hash, number) in targets {
        for predicate in [|_: &char| true, |d: &char| *d < 'd', |d: &char| *d > 'd'] {
            let mut tree = tree();
            let check =
                tree.finalizes_any_with_descendent_if(&hash, number, &is_descendent_of, predicate);
            let r = tree.finalize_with_descendent_if(&hash, number, &is_descendent_of, predicate);
            assert_eq!(
                check == Ok(Some(true)),
                matches!(r, Ok(FinalizationResult::Changed(Some(_))))
            );
            if let Err(e) = r {
                assert_eq!(check, Err(e));
            }
        }
    }
}

#[test]
fn a_hash_identifies_a_node() {
    let mut seen = hashes(&tree());
    seen.sort();
    seen.dedup();
    assert_eq!(seen.len(), BLOCKS.len());
}

#[test]
fn an_iteration_explores_the_longest_fork_first() {
    let d = |base: &&str, block: &&str| -> Result<bool, String> { Ok(*base == "A" && *block == "B") };
    let mut tree = ForkTree::new();
    tree.import("A", 1, 1, &d).unwrap();
    tree.import("X", 1, 2, &d).unwrap();
    tree.import("B", 2, 3, &d).unwrap();
    tree.rebalance();
    let order: Vec<&str> = tree.iter().into_iter().map(|(h, _, _)| *h).collect();
    assert_eq!(order, vec!["A", "B", "X"]);

    // the longer fork comes first wherever it was imported
    let d = |base: &&str, block: &&str| -> Result<bool, String> { Ok(*base == "X" && *block == "Y") };
    let mut tree = ForkTree::new();
    tree.import("A", 1, 1, &d).unwrap();
    tree.import("X", 1, 2, &d).unwrap();
    tree.import("Y", 2, 3, &d).unwrap();
    let order: Vec<&str> = tree.iter().into_iter().map(|(h, _, _)| *h).collect();
    assert_eq!(order, vec!["X", "Y", "A"]);
}

#[test]
fn a_check_beforehand_goes_through_the_roots_in_order() {
    // the client takes both roots for ancestors
    let always = |_: &u32, _: &u32| -> Result<bool, String> { Ok(true) };
    let never = |_: &u32, _: &u32| -> Result<bool, String> { Ok(false) };
    let mut tree: Tree = ForkTree::new();
    tree.import(1, 1, 'a', &never).unwrap();
    tree.import(2, 1, 'b', &never).unwrap();
    tree.import(10, 2, 'c', &|base: &u32, _: &u32| -> Result<bool, String> { Ok(*base == 1) })
        .unwrap();
    assert_eq!(hashes(&tree), vec![1, 10, 2]);
    // the first root has a child that is overtaken, the second has none
    assert_eq!(
        tree.finalizes_any_with_descendent_if(&99, 9, &always, |_| true),
        Err(Error::UnfinalizedAncestor)
    );
    assert_eq!(
        tree.finalizes_any_with_descendent_if(&99, 9, &always, |d| *d == 'b'),
        Ok(Some(true))
    );
}

#[test]
fn finalizing_with_ancestors_is_finalizing_one_after_the_other() {
    for (hash, _, number, data) in BLOCKS {
        let mut at_once = tree();
        let result = at_once.finalize_with_ancestors(&hash, number, &is_descendent_of);
        assert_eq!(result, Ok(FinalizationResult::Changed(Some(data))));

        let mut in_turn = tree();
        let mut last = None;
        for (h, _, n, d) in BLOCKS {
            if h == hash || is_ancestor(h, hash) {
                last = Some(in_turn.finalize(&h, n, &is_descendent_of));
                assert_eq!(last, Some(Ok(FinalizationResult::Changed(Some(d)))));
            }
        }
        assert_eq!(last, Some(result));
        assert_eq!(in_turn, at_once);
    }
}

#[test]
fn ancestors_are_finalized_whatever_is_answered_about_other_nodes() {
    // right about the nodes above 7 only, and wrong about all others
    let partly = |base: &u32, block: &u32| -> Result<bool, String> {
        if *block == 7 && is_ancestor(*base, 7) {
            Ok(true)
        } else if *base == 7 && is_ancestor(*block, 7) {
            Ok(false)
        } else {
            Ok(!is_ancestor(*base, *block))
        }
    };
    let mut tree = tree();
    assert_eq!(
        tree.finalize_with_ancestors(&7, 7, &partly),
        Ok(FinalizationResult::Changed(Some('g')))
    );
    assert!(tree.roots.is_empty());
    assert_eq!(tree.best_finalized_number, Some(7));
}

#[test]
fn a_change_without_a_finalized_node_leaves_fewer_nodes() {
    for (hash, number) in [(105, 5), (107, 8), (999, 50), (0, 0)] {
        let mut tree = tree();
        let before = tree.clone();
        match tree.finalize_with_ancestors(&hash, number, &is_descendent_of) {
            Ok(FinalizationResult::Changed(None)) => {
                assert!(hashes(&tree).len() < hashes(&before).len());
            },
            Ok(FinalizationResult::Unchanged) => assert_eq!(tree.roots, before.roots),
            other => panic!("{:?}", other),
        }
    }
}

#[test]
fn a_root_that_is_finalized_already_cannot_be_finalized_in_turn() {
    let mut tree = tree();
    tree.finalize_with_descendent_if(&105, 5, &is_descendent_of, |d| *d > 'z').unwrap();
    assert_eq!(tree.best_finalized_number, Some(5));
    assert_eq!(tree.finalize(&1, 1, &is_descendent_of), Err(Error::Revert));
    assert_eq!(
        tree.finalize_with_ancestors(&7, 7, &is_descendent_of),
        Ok(FinalizationResult::Changed(Some('g')))
    );
}

#[test]
fn finalizing_an_outside_block_with_ancestors_leaves_its_topmost_descendants() {
    // 100 stands between 3 and 5: 1 and 3 are its ancestors, 5, 6 and 7 its descendants
    let around = |base: &u32, block: &u32| -> Result<bool, String> {
        Ok(match (*base, *block) {
            (base, 100) => base == 1 || base == 3,
            (100, block) => block == 5 || is_ancestor(5, block),
            (base, block) => is_ancestor(base, block),
        })
    };
    let mut tree = tree();
    assert_eq!(
        tree.finalize_with_ancestors(&100, 3, &around),
        Ok(FinalizationResult::Changed(None))
    );
    assert_eq!(roots(&tree), vec![5]);
    assert_eq!(hashes(&tree), vec![5, 6, 7]);
    assert_eq!(tree.best_finalized_number, Some(3));
}
