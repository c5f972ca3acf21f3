use program_structure::ast::Meta;
use program_structure::basic_block::BasicBlock;
use program_structure::dominator_tree::DominatorTree;
use program_structure::errors::CFGError;
use program_structure::file_definition::FileLocation;
use program_structure::ir;

fn graph(size: usize, edges: &[(usize, usize)]) -> Vec<BasicBlock> {
    let meta = Meta { location: FileLocation { start: 0, end: 0 }, file_id: None };
    let mut blocks: Vec<BasicBlock> =
        (0..size).map(|i| BasicBlock::new(i, ir::Meta::from_ast(&meta))).collect();
    for (from, to) in edges {
        blocks[*from].add_successor(*to);
        blocks[*to].add_predecessor(*from);
    }
    blocks
}

fn idoms(tree: &DominatorTree) -> Vec<Option<usize>> {
    (0..tree.len()).map(|i| tree.get_immediate_dominator(i)).collect()
}

fn frontier(tree: &DominatorTree, i: usize) -> Vec<usize> {
    let mut frontier = tree.get_dominance_frontier(i).clone();
    frontier.sort();
    frontier
}

#[test]
fn no_block_is_an_empty_graph() {
    assert_eq!(DominatorTree::new(&Vec::new()).err(), Some(CFGError::EmptyCfg));
}

#[test]
fn single_block_has_no_dominator() {
    let tree = DominatorTree::new(&graph(1, &[])).unwrap();
    assert_eq!(idoms(&tree), vec![None]);
    assert!(frontier(&tree, 0).is_empty());
}

#[test]
fn diamond_joins_under_the_entry() {
    let tree = DominatorTree::new(&graph(4, &[(0, 1), (0, 2), (1, 3), (2, 3)])).unwrap();
    assert_eq!(idoms(&tree), vec![None, Some(0), Some(0), Some(0)]);
    assert_eq!(frontier(&tree, 0), Vec::<usize>::new());
    assert_eq!(frontier(&tree, 1), vec![3]);
    assert_eq!(frontier(&tree, 2), vec![3]);
    assert_eq!(frontier(&tree, 3), Vec::<usize>::new());
}

#[test]
fn chain_has_each_block_dominated_by_the_one_before() {
    let tree = DominatorTree::new(&graph(4, &[(0, 1), (1, 2), (2, 3)])).unwrap();
    assert_eq!(idoms(&tree), vec![None, Some(0), Some(1), Some(2)]);
    for i in 0..4 {
        assert!(frontier(&tree, i).is_empty());
    }
}

#[test]
fn unreachable_block_has_no_dominator_and_no_frontier() {
    let tree = DominatorTree::new(&graph(4, &[(0, 1), (2, 1), (2, 3)])).unwrap();
    assert_eq!(idoms(&tree), vec![None, Some(0), None, None]);
    assert!(frontier(&tree, 2).is_empty());
    assert!(frontier(&tree, 3).is_empty());
    assert!(frontier(&tree, 0).is_empty());
}

#[test]
fn loop_header_is_in_its_own_frontier() {
    let tree = DominatorTree::new(&graph(4, &[(0, 1), (1, 2), (2, 1), (1, 3)])).unwrap();
    assert_eq!(idoms(&tree), vec![None, Some(0), Some(1), Some(1)]);
    assert_eq!(frontier(&tree, 1), vec![1]);
    assert_eq!(frontier(&tree, 2), vec![1]);
    assert_eq!(frontier(&tree, 0), Vec::<usize>::new());
}

#[test]
fn edge_back_into_the_entry_puts_the_entry_in_frontiers() {
    let tree = DominatorTree::new(&graph(2, &[(0, 1), (1, 0)])).unwrap();
    assert_eq!(idoms(&tree), vec![None, Some(0)]);
    assert_eq!(frontier(&tree, 0), vec![0]);
    assert_eq!(frontier(&tree, 1), vec![0]);
}

#[test]
fn nested_branches_pick_the_closest_dominator() {
    // 0 -> 1 -> {2, 3} -> 4 -> 6, 0 -> 5 -> 6
    let edges = [(0, 1), (1, 2), (1, 3), (2, 4), (3, 4), (4, 6), (0, 5), (5, 6)];
    let tree = DominatorTree::new(&graph(7, &edges)).unwrap();
    assert_eq!(
        idoms(&tree),
        vec![None, Some(0), Some(1), Some(1), Some(1), Some(0), Some(0)]
    );
    assert_eq!(frontier(&tree, 1), vec![6]);
    assert_eq!(frontier(&tree, 2), vec![4]);
    assert_eq!(frontier(&tree, 4), vec![6]);
    assert_eq!(frontier(&tree, 5), vec![6]);
}

#[test]
fn following_dominators_leads_to_the_entry() {
    let edges = [(0, 1), (1, 2), (2, 3), (3, 1), (2, 4), (4, 5), (1, 5)];
    let tree = DominatorTree::new(&graph(6, &edges)).unwrap();
    for start in 1..6 {
        let mut at = start;
        let mut steps = 0;
        while at != 0 {
            at = tree.get_immediate_dominator(at).unwrap();
            steps += 1;
            assert!(steps <= 6);
        }
    }
}
