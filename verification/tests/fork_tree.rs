//! The tree under imports, searches, finalization and pruning.

use std::sync::atomic::{AtomicUsize, Ordering};

use fork_tree::{Error, FinalizationResult, ForkTree};
use parity_scale_codec::{Decode, Encode};

#[derive(Debug, PartialEq)]
struct TestError;

impl std::fmt::Display for TestError {
    fn fmt(&self, f: &mut std::fmt::Formatter) -> std::fmt::Result {
        f.write_str("TestError")
    }
}

impl std::error::Error for TestError {}

/// Decodes a value from the front of some bytes, and tells how many it took.
fn read<T: Decode>(bytes: &[u8]) -> Option<(T, usize)> {
    let mut rest = bytes;
    let value = T::decode(&mut rest).ok()?;
    Some((value, bytes.len() - rest.len()))
}

fn test_fork_tree<'a>() -> (ForkTree<&'a str, u64, u64>, impl Fn(&&str, &&str) -> Result<bool, TestError>)  {
    let mut tree = ForkTree::new();

    //
    //     - B - C - D - E
    //    /
    //   /   - G
    //  /   /
    // A - F - H - I
    //          \
    //           - L - M
    //              \
    //               - O
    //  \
    //   — J - K
    //
    // (where N is not a part of fork tree)
    let is_descendent_of = |base: &&str, block: &&str| -> Result<bool, TestError> {
        let letters = vec!["B", "C", "D", "E", "F", "G", "H", "I", "J", "K", "L", "M", "O"];
        match (*base, *block) {
            ("A", b) => Ok(letters.into_iter().any(|n| n == b)),
            ("B", b) => Ok(b == "C" || b == "D" || b == "E"),
            ("C", b) => Ok(b == "D" || b == "E"),
            ("D", b) => Ok(b == "E"),
            ("E", _) => Ok(false),
            ("F", b) => Ok(b == "G" || b == "H" || b == "I" || b == "L" || b == "M" || b == "O"),
            ("G", _) => Ok(false),
            ("H", b) => Ok(b == "I" || b == "L" || b == "M" || b == "O"),
            ("I", _) => Ok(false),
            ("J", b) => Ok(b == "K"),
            ("K", _) => Ok(false),
            ("L", b) => Ok(b == "M" || b == "O"),
            ("M", _) => Ok(false),
            ("O", _) => Ok(false),
            ("0", _) => Ok(true),
            _ => Ok(false),
        }
    };

    tree.import("A", 1, 10, &is_descendent_of).unwrap();

    tree.import("B", 2, 9, &is_descendent_of).unwrap();
    tree.import("C", 3, 8, &is_descendent_of).unwrap();
    tree.import("D", 4, 7, &is_descendent_of).unwrap();
    tree.import("E", 5, 6, &is_descendent_of).unwrap();

    tree.import("F", 2, 5, &is_descendent_of).unwrap();
    tree.import("G", 3, 4, &is_descendent_of).unwrap();

    tree.import("H", 3, 3, &is_descendent_of).unwrap();
    tree.import("I", 4, 2, &is_descendent_of).unwrap();
    tree.import("L", 4, 1, &is_descendent_of).unwrap();
    tree.import("M", 5, 2, &is_descendent_of).unwrap();
    tree.import("O", 5, 3, &is_descendent_of).unwrap();

    tree.import("J", 2, 4, &is_descendent_of).unwrap();
    tree.import("K", 3, 11, &is_descendent_of).unwrap();

    (tree, is_descendent_of)
}

#[test]
fn find_node_index_where() {
    let (tree, is_descendent_of) = test_fork_tree();

    assert_eq!(
        tree.find_node_index_where(&"B", &2, &is_descendent_of, &|_| true),
        Ok(Some(vec![0]))
    );

    assert_eq!(
        tree.find_node_index_where(&"C", &3, &is_descendent_of, &|_| true),
        Ok(Some(vec![0, 0]))
    );

    assert_eq!(
        tree.find_node_index_where(&"D", &4, &is_descendent_of, &|_| true),
        Ok(Some(vec![0, 0, 0]))
    );

    assert_eq!(
        tree.find_node_index_where(&"E", &5, &is_descendent_of, &|_| true),
        Ok(Some(vec![0, 0, 0, 0]))
    );

    assert_eq!(
        tree.find_node_index_where(&"F", &2, &is_descendent_of, &|_| true),
        Ok(Some(vec![0]))
    );

    assert_eq!(
        tree.find_node_index_where(&"G", &3, &is_descendent_of, &|_| true),
        Ok(Some(vec![1, 0]))
    );

    assert_eq!(
        tree.find_node_index_where(&"H", &3, &is_descendent_of, &|_| true),
        Ok(Some(vec![1, 0]))
    );

    assert_eq!(
        tree.find_node_index_where(&"I", &4, &is_descendent_of, &|_| true),
        Ok(Some(vec![0, 1, 0]))
    );

    assert_eq!(
        tree.find_node_index_where(&"L", &4, &is_descendent_of, &|_| true),
        Ok(Some(vec![0, 1, 0]))
    );

    assert_eq!(
        tree.find_node_index_where(&"M", &5, &is_descendent_of, &|_| true),
        Ok(Some(vec![0, 0, 1, 0]))
    );

    assert_eq!(
        tree.find_node_index_where(&"O", &5, &is_descendent_of, &|_| true),
        Ok(Some(vec![0, 0, 1, 0]))
    );

    assert_eq!(
        tree.find_node_index_where(&"J", &2, &is_descendent_of, &|_| true),
        Ok(Some(vec![0]))
    );

    assert_eq!(
        tree.find_node_index_where(&"K", &3, &is_descendent_of, &|_| true),
        Ok(Some(vec![2, 0]))
    );

    for i in 0 .. 10 {
        assert_eq!(
            tree.find_node_index_where(&"A", &i, &is_descendent_of, &|_| true),
            Ok(None),
            "{}", i
        );
    }

    assert_eq!(
        tree.find_node_index_where(&"B", &0, &is_descendent_of, &|_| true),
        Ok(None),
    );
}

#[test]
fn import_doesnt_revert() {
    let (mut tree, is_descendent_of) = test_fork_tree();

    tree.finalize_root(&"A");

    assert_eq!(
        tree.best_finalized_number,
        Some(1),
    );

    assert_eq!(
        tree.import("A", 1, 1, &is_descendent_of),
        Err(Error::Revert),
    );
}

#[test]
fn import_doesnt_add_duplicates() {
    let (mut tree, is_descendent_of) = test_fork_tree();

    assert_eq!(
        tree.import("A", 1, 1, &is_descendent_of),
        Err(Error::Duplicate),
    );

    assert_eq!(
        tree.import("I", 4, 1, &is_descendent_of),
        Err(Error::Duplicate),
    );

    assert_eq!(
        tree.import("G", 3, 1, &is_descendent_of),
        Err(Error::Duplicate),
    );

    assert_eq!(
        tree.import("K", 3, 1, &is_descendent_of),
        Err(Error::Duplicate),
    );
}

#[test]
fn finalize_root_works() {
    let finalize_a = || {
        let (mut tree, ..) = test_fork_tree();

        assert_eq!(
            tree.roots().into_iter().map(|(h, n, _)| (h.clone(), n.clone())).collect::<Vec<_>>(),
            vec![("A", 1)],
        );

        // finalizing "A" opens up three possible forks
        tree.finalize_root(&"A");

        assert_eq!(
            tree.roots().into_iter().map(|(h, n, _)| (h.clone(), n.clone())).collect::<Vec<_>>(),
            vec![("B", 2), ("F", 2), ("J", 2)],
        );

        tree
    };

    {
        let mut tree = finalize_a();

        // finalizing "B" will progress on its fork and remove any other competing forks
        tree.finalize_root(&"B");

        assert_eq!(
            tree.roots().into_iter().map(|(h, n, _)| (h.clone(), n.clone())).collect::<Vec<_>>(),
            vec![("C", 3)],
        );

        // all the other forks have been pruned
        assert!(tree.roots.len() == 1);
    }

    {
        let mut tree = finalize_a();

        // finalizing "J" will progress on its fork and remove any other competing forks
        tree.finalize_root(&"J");

        assert_eq!(
            tree.roots().into_iter().map(|(h, n, _)| (h.clone(), n.clone())).collect::<Vec<_>>(),
            vec![("K", 3)],
        );

        // all the other forks have been pruned
        assert!(tree.roots.len() == 1);
    }
}

#[test]
fn finalize_works() {
    let (mut tree, is_descendent_of) = test_fork_tree();

    let original_roots = tree.roots.clone();

    // finalizing a block prior to any in the node doesn't change the tree
    assert_eq!(
        tree.finalize(&"0", 0, &is_descendent_of),
        Ok(FinalizationResult::Unchanged),
    );

    assert_eq!(tree.roots, original_roots);

    // finalizing "A" opens up three possible forks
    assert_eq!(
        tree.finalize(&"A", 1, &is_descendent_of),
        Ok(FinalizationResult::Changed(Some(10))),
    );

    assert_eq!(
        tree.roots().into_iter().map(|(h, n, _)| (h.clone(), n.clone())).collect::<Vec<_>>(),
        vec![("B", 2), ("F", 2), ("J", 2)],
    );

    // finalizing anything lower than what we observed will fail
    assert_eq!(
        tree.best_finalized_number,
        Some(1),
    );

    assert_eq!(
        tree.finalize(&"Z", 1, &is_descendent_of),
        Err(Error::Revert),
    );

    // trying to finalize a node without finalizing its ancestors first will fail
    assert_eq!(
        tree.finalize(&"H", 3, &is_descendent_of),
        Err(Error::UnfinalizedAncestor),
    );

    // after finalizing "F" we can finalize "H"
    assert_eq!(
        tree.finalize(&"F", 2, &is_descendent_of),
        Ok(FinalizationResult::Changed(Some(5))),
    );

    assert_eq!(
        tree.finalize(&"H", 3, &is_descendent_of),
        Ok(FinalizationResult::Changed(Some(3))),
    );

    assert_eq!(
        tree.roots().into_iter().map(|(h, n, _)| (h.clone(), n.clone())).collect::<Vec<_>>(),
        vec![("L", 4), ("I", 4)],
    );

    // finalizing a node from another fork that isn't part of the tree clears the tree
    assert_eq!(
        tree.finalize(&"Z", 5, &is_descendent_of),
        Ok(FinalizationResult::Changed(None)),
    );

    assert!(tree.roots.is_empty());
}

#[test]
fn finalize_with_ancestor_works() {
    let (mut tree, is_descendent_of) = test_fork_tree();

    let original_roots = tree.roots.clone();

    // finalizing a block prior to any in the node doesn't change the tree
    assert_eq!(
        tree.finalize_with_ancestors(&"0", 0, &is_descendent_of),
        Ok(FinalizationResult::Unchanged),
    );

    assert_eq!(tree.roots, original_roots);

    // finalizing "A" opens up three possible forks
    assert_eq!(
        tree.finalize_with_ancestors(&"A", 1, &is_descendent_of),
        Ok(FinalizationResult::Changed(Some(10))),
    );

    assert_eq!(
        tree.roots().into_iter().map(|(h, n, _)| (h.clone(), n.clone())).collect::<Vec<_>>(),
        vec![("B", 2), ("F", 2), ("J", 2)],
    );

    // finalizing H:
    // 1) removes roots that are not ancestors/descendants of H (B, J)
    // 2) opens root that is ancestor of H (F -> G+H)
    // 3) finalizes the just opened root H (H -> I + L)
    assert_eq!(
        tree.finalize_with_ancestors(&"H", 3, &is_descendent_of),
        Ok(FinalizationResult::Changed(Some(3))),
    );

    assert_eq!(
        tree.roots().into_iter().map(|(h, n, _)| (h.clone(), n.clone())).collect::<Vec<_>>(),
        vec![("L", 4), ("I", 4)],
    );

    assert_eq!(
        tree.best_finalized_number,
        Some(3),
    );

    // finalizing N (which is not a part of the tree):
    // 1) removes roots that are not ancestors/descendants of N (I)
    // 2) opens root that is ancestor of N (L -> M+O)
    // 3) removes roots that are not ancestors/descendants of N (O)
    // 4) opens root that is ancestor of N (M -> {})
    assert_eq!(
        tree.finalize_with_ancestors(&"N", 6, &is_descendent_of),
        Ok(FinalizationResult::Changed(None)),
    );

    assert_eq!(
        tree.roots().into_iter().map(|(h, n, _)| (h.clone(), n.clone())).collect::<Vec<_>>(),
        vec![],
    );

    assert_eq!(
        tree.best_finalized_number,
        Some(6),
    );
}

#[test]
fn finalize_with_descendent_works() {
    #[derive(Debug, PartialEq)]
    struct Change { effective: u64 }

    let (mut tree, is_descendent_of) = {
        let mut tree = ForkTree::new();

        let is_descendent_of = |base: &&str, block: &&str| -> Result<bool, TestError> {

            //
            // A0 #1 - (B #2) - (C #5) - D #10 - E #15 - (F #100)
            //                            \
            //                             - (G #100)
            //
            // A1 #1
            //
            // Nodes B, C, F and G  are not part of the tree.
            match (*base, *block) {
                ("A0", b) => Ok(b == "B" || b == "C" || b == "D" || b == "G"),
                ("A1", _) => Ok(false),
                ("C", b) => Ok(b == "D"),
                ("D", b) => Ok(b == "E" || b == "F" || b == "G"),
                ("E", b) => Ok(b == "F"),
                _ => Ok(false),
            }
        };

        tree.import("A0", 1, Change { effective: 5 }, &is_descendent_of).unwrap();
        tree.import("A1", 1, Change { effective: 5 }, &is_descendent_of).unwrap();
        tree.import("D", 10, Change { effective: 10 }, &is_descendent_of).unwrap();
        tree.import("E", 15, Change { effective: 50 }, &is_descendent_of).unwrap();

        (tree, is_descendent_of)
    };

    assert_eq!(
        tree.finalizes_any_with_descendent_if(
            &"B",
            2,
            &is_descendent_of,
            |c| c.effective <= 2,
        ),
        Ok(None),
    );

    // finalizing "D" will finalize a block from the tree, but it can't be applied yet
    // since it is not a root change
    assert_eq!(
        tree.finalizes_any_with_descendent_if(
            &"D",
            10,
            &is_descendent_of,
            |c| c.effective == 10,
        ),
        Ok(Some(false)),
    );

    // finalizing "B" doesn't finalize "A0" since the predicate doesn't pass,
    // although it will clear out "A1" from the tree
    assert_eq!(
        tree.finalize_with_descendent_if(
            &"B",
            2,
            &is_descendent_of,
            |c| c.effective <= 2,
        ),
        Ok(FinalizationResult::Changed(None)),
    );

    assert_eq!(
        tree.roots().into_iter().map(|(h, n, _)| (h.clone(), n.clone())).collect::<Vec<_>>(),
        vec![("A0", 1)],
    );

    // finalizing "C" will finalize the node "A0" and prune it out of the tree
    assert_eq!(
        tree.finalizes_any_with_descendent_if(
            &"C",
            5,
            &is_descendent_of,
            |c| c.effective <= 5,
        ),
        Ok(Some(true)),
    );

    assert_eq!(
        tree.finalize_with_descendent_if(
            &"C",
            5,
            &is_descendent_of,
            |c| c.effective <= 5,
        ),
        Ok(FinalizationResult::Changed(Some(Change { effective: 5 }))),
    );

    assert_eq!(
        tree.roots().into_iter().map(|(h, n, _)| (h.clone(), n.clone())).collect::<Vec<_>>(),
        vec![("D", 10)],
    );

    // finalizing "F" will fail since it would finalize past "E" without finalizing "D" first
    assert_eq!(
        tree.finalizes_any_with_descendent_if(
            &"F",
            100,
            &is_descendent_of,
            |c| c.effective <= 100,
        ),
        Err(Error::UnfinalizedAncestor),
    );

    // it will work with "G" though since it is not in the same branch as "E"
    assert_eq!(
        tree.finalizes_any_with_descendent_if(
            &"G",
            100,
            &is_descendent_of,
            |c| c.effective <= 100,
        ),
        Ok(Some(true)),
    );

    assert_eq!(
        tree.finalize_with_descendent_if(
            &"G",
            100,
            &is_descendent_of,
            |c| c.effective <= 100,
        ),
        Ok(FinalizationResult::Changed(Some(Change { effective: 10 }))),
    );

    // "E" will be pruned out
    assert_eq!(tree.roots().len(), 0);
}

#[test]
fn iter_iterates_in_preorder() {
    let (tree, ..) = test_fork_tree();
    assert_eq!(
        tree.iter().into_iter().map(|(h, n, _)| (h.clone(), n.clone())).collect::<Vec<_>>(),
        vec![
            ("A", 1),
                ("B", 2),
                    ("C", 3),
                        ("D", 4),
                            ("E", 5),
                ("F", 2),
                    ("H", 3),
                        ("L", 4),
                            ("M", 5),
                            ("O", 5),
                        ("I", 4),
                    ("G", 3),
                ("J", 2),
                    ("K", 3),
        ],
    );
}

#[test]
fn minimizes_calls_to_is_descendent_of() {
    let n_is_descendent_of_calls = AtomicUsize::new(0);

    let is_descendent_of = |_: &&str, _: &&str| -> Result<bool, TestError> {
        n_is_descendent_of_calls.fetch_add(1, Ordering::SeqCst);
        Ok(true)
    };

    {
        // Deep tree where we want to call `finalizes_any_with_descendent_if`. The
        // search for the node should first check the predicate (which is cheaper) and
        // only then call `is_descendent_of`
        let mut tree = ForkTree::new();
        let letters = vec!["A", "B", "C", "D", "E", "F", "G", "H", "I", "J", "K"];

        for (i, letter) in letters.iter().enumerate() {
            tree.import::<_, TestError>(*letter, i, i, &|_, _| Ok(true)).unwrap();
        }

        // "L" is a descendent of "K", but the predicate will only pass for "K",
        // therefore only one call to `is_descendent_of` should be made
        assert_eq!(
            tree.finalizes_any_with_descendent_if(
                &"L",
                11,
                &is_descendent_of,
                |i| *i == 10,
            ),
            Ok(Some(false)),
        );

        assert_eq!(
            n_is_descendent_of_calls.load(Ordering::SeqCst),
            1,
        );
    }

    n_is_descendent_of_calls.store(0, Ordering::SeqCst);

    {
        // Multiple roots in the tree where we want to call `finalize_with_descendent_if`.
        // The search for the root node should first check the predicate (which is cheaper)
        // and only then call `is_descendent_of`
        let mut tree = ForkTree::new();
        let letters = vec!["A", "B", "C", "D", "E", "F", "G", "H", "I", "J", "K"];

        for (i, letter) in letters.iter().enumerate() {
            tree.import::<_, TestError>(*letter, i, i, &|_, _| Ok(false)).unwrap();
        }

        // "L" is a descendent of "K", but the predicate will only pass for "K",
        // therefore only one call to `is_descendent_of` should be made
        assert_eq!(
            tree.finalize_with_descendent_if(
                &"L",
                11,
                &is_descendent_of,
                |i| *i == 10,
            ),
            Ok(FinalizationResult::Changed(Some(10))),
        );

        assert_eq!(
            n_is_descendent_of_calls.load(Ordering::SeqCst),
            1,
        );
    }
}

#[test]
fn find_node_works() {
    let (tree, is_descendent_of) = test_fork_tree();

    let node = tree.find_node_where(
        &"D",
        &4,
        &is_descendent_of,
        &|_| true,
    ).unwrap().unwrap();

    assert_eq!(node.hash, "C");
    assert_eq!(node.number, 3);
}

#[test]
fn map_works() {
    let (tree, _is_descendent_of) = test_fork_tree();

    let _tree = tree.map(&mut |_, _, _| ());
}

#[test]
fn prune_works() {
    let (mut tree, is_descendent_of) = test_fork_tree();

    let removed = tree.prune(
        &"C",
        &3,
        &is_descendent_of,
        &|_| true,
    ).unwrap();

    assert_eq!(
        tree.roots.iter().map(|node| node.hash).collect::<Vec<_>>(),
        vec!["B"],
    );

    assert_eq!(
        tree.iter().into_iter().map(|(hash, _, _)| *hash).collect::<Vec<_>>(),
        vec!["B", "C", "D", "E"],
    );

    assert_eq!(
        removed.into_iter().map(|(hash, _, _)| hash).collect::<Vec<_>>(),
        vec!["A", "F", "H", "L", "M", "O", "I", "G", "J", "K"]
    );

    let removed = tree.prune(
        &"E",
        &5,
        &is_descendent_of,
        &|_| true,
    ).unwrap();

    assert_eq!(
        tree.roots.iter().map(|node| node.hash).collect::<Vec<_>>(),
        vec!["D"],
    );

    assert_eq!(
        tree.iter().into_iter().map(|(hash, _, _)| *hash).collect::<Vec<_>>(),
        vec!["D", "E"],
    );

    assert_eq!(
        removed.into_iter().map(|(hash, _, _)| hash).collect::<Vec<_>>(),
        vec!["B", "C"]
    );
}

#[test]
fn find_node_backtracks_after_finding_highest_descending_node() {
    let mut tree = ForkTree::new();

    //
    // A - B
    //  \
    //   — C
    //
    let is_descendent_of = |base: &&str, block: &&str| -> Result<bool, TestError> {
        match (*base, *block) {
            ("A", b) => Ok(b == "B" || b == "C" || b == "D"),
            ("B", b) | ("C", b) => Ok(b == "D"),
            ("0", _) => Ok(true),
            _ => Ok(false),
        }
    };

    tree.import("A", 1, 1, &is_descendent_of).unwrap();
    tree.import("B", 2, 2, &is_descendent_of).unwrap();
    tree.import("C", 2, 4, &is_descendent_of).unwrap();

    // when searching the tree we reach node `C`, but the
    // predicate doesn't pass. we should backtrack to `B`, but not to `A`,
    // since "B" fulfills the predicate.
    let node = tree.find_node_where(
        &"D",
        &3,
        &is_descendent_of,
        &|data| *data < 3,
    ).unwrap();

    assert_eq!(node.unwrap().hash, "B");
}

#[test]
fn tree_rebalance() {
    let (mut tree, _) = test_fork_tree();

    assert_eq!(
        tree.iter().into_iter().map(|(h, _, _)| *h).collect::<Vec<_>>(),
        vec!["A", "B", "C", "D", "E", "F", "H", "L", "M", "O", "I", "G", "J", "K"],
    );

    // after rebalancing the tree we should iterate in preorder exploring
    // the longest forks first. check the ascii art above to understand the
    // expected output below.
    tree.rebalance();

    assert_eq!(
        tree.iter().into_iter().map(|(h, _, _)| *h).collect::<Vec<_>>(),
        ["A", "B", "C", "D", "E", "F", "H", "L", "M", "O", "I", "G", "J", "K"]
    );
}

#[test]
fn find_node_where_value() {
    let (tree, d) = test_fork_tree();
    assert_eq!(
        tree.find_node_where(&"M", &5, &d, &|&n| n == 1 || n == 2)
            .map(|opt| opt.map(|node| node.hash)),
        Ok(Some("L")),
        "{:?}", tree.find_node_index_where(&"M", &5, &d, &|&n| n == 1 || n == 2)
    );
}

#[test]
fn find_node_where_value_2() {
    let mut tree = ForkTree::new();

    //
    // A - B
    //  \
    //   — C
    //
    let is_descendent_of = |base: &&str, block: &&str| -> Result<bool, TestError> {
        match (*base, *block) {
            ("A", b) => Ok(b == "B" || b == "C" || b == "D"),
            ("B", b) | ("C", b) => Ok(b == "D"),
            ("0", _) => Ok(true),
            _ => Ok(false),
        }
    };

    tree.import("A", 1, 1, &is_descendent_of).unwrap();
    tree.import("B", 2, 2, &is_descendent_of).unwrap();
    tree.import("C", 2, 4, &is_descendent_of).unwrap();

    assert_eq!(
        tree.find_node_where(&"D", &3, &is_descendent_of, &|&n| n == 1)
            .map(|opt| opt.map(|node| node.hash)),
        Ok(Some("A"))
    );
}

#[test]
fn encoding_and_decoding_works() {
    let tree = {
        let mut tree = ForkTree::<String, u64, u64>::new();

        //
        //     - B - C - D - E
        //    /
        //   /   - G
        //  /   /
        // A - F - H - I
        //          \
        //           - L - M
        //              \
        //               - O
        //  \
        //   — J - K
        //
        // (where N is not a part of fork tree)
        let is_descendent_of = |base: &String, block: &String| -> Result<bool, TestError> {
            let letters = vec!["B", "C", "D", "E", "F", "G", "H", "I", "J", "K", "L", "M", "O"];
            match (&base[..], &block[..]) {
                ("A", b) => Ok(letters.into_iter().any(|n| n == b)),
                ("B", b) => Ok(b == "C" || b == "D" || b == "E"),
                ("C", b) => Ok(b == "D" || b == "E"),
                ("D", b) => Ok(b == "E"),
                ("E", _) => Ok(false),
                ("F", b) => Ok(b == "G" || b == "H" || b == "I" || b == "L" || b == "M" || b == "O"),
                ("G", _) => Ok(false),
                ("H", b) => Ok(b == "I" || b == "L" || b == "M" || b == "O"),
                ("I", _) => Ok(false),
                ("J", b) => Ok(b == "K"),
                ("K", _) => Ok(false),
                ("L", b) => Ok(b == "M" || b == "O"),
                ("M", _) => Ok(false),
                ("O", _) => Ok(false),
                ("0", _) => Ok(true),
                _ => Ok(false),
            }
        };

        tree.import("A".into(), 1, 10, &is_descendent_of).unwrap();

        tree.import("B".into(), 2, 9, &is_descendent_of).unwrap();
        tree.import("C".into(), 3, 8, &is_descendent_of).unwrap();
        tree.import("D".into(), 4, 7, &is_descendent_of).unwrap();
        tree.import("E".into(), 5, 6, &is_descendent_of).unwrap();

        tree.import("F".into(), 2, 5, &is_descendent_of).unwrap();
        tree.import("G".into(), 3, 4, &is_descendent_of).unwrap();

        tree.import("H".into(), 3, 3, &is_descendent_of).unwrap();
        tree.import("I".into(), 4, 2, &is_descendent_of).unwrap();
        tree.import("L".into(), 4, 1, &is_descendent_of).unwrap();
        tree.import("M".into(), 5, 2, &is_descendent_of).unwrap();
        tree.import("O".into(), 5, 3, &is_descendent_of).unwrap();

        tree.import("J".into(), 2, 4, &is_descendent_of).unwrap();
        tree.import("K".into(), 3, 11, &is_descendent_of).unwrap();

        tree
    };

    let encoded = tree.encode_with(
        &|hash: &String| hash.encode(),
        &|number: &u64| number.encode(),
        &|data: &u64| data.encode(),
    );
    let (decoded, rest) = ForkTree::decode_with(
        &encoded[..],
        &read::<String>,
        &read::<u64>,
        &read::<u64>,
    ).unwrap();
    assert_eq!(tree, decoded);
    assert!(rest.is_empty());
}
