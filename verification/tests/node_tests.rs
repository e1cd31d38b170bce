use ndcell::automaton::NdAutomaton;
use ndcell::axis::Axis;
use ndcell::big::BigNum;
use ndcell::cache::NodeCache;
use ndcell::ndrect::BigRect;
use ndcell::ndtree::NdTree;
use ndcell::ndvec::BigVec;
use ndcell::rule::{Flood, Life};
use ndcell::sim::SimError;

fn at(x: i64, y: i64) -> BigVec<2> {
    BigVec::<2>::from_i64([x, y])
}

#[test]
fn equal_leaves_are_one_node() {
    let mut cache = NodeCache::<2>::new();
    let a = cache.intern_leaf(vec![1, 0, 0, 2]);
    let b = cache.intern_leaf(vec![1, 0, 0, 3]);
    let c = cache.intern_leaf(vec![1, 0, 0, 2]);
    assert_eq!(a, c);
    assert_ne!(a, b);
    assert_eq!(cache.len(), 2);
    assert_eq!(cache.layer(a), 1);
    assert_eq!(cache.population(a), BigNum::from_i64(2));
    assert_eq!(cache.leaf_cell(a, 3), 2);
    let mut other = NodeCache::<2>::new();
    let d = other.intern_leaf(vec![9, 9, 9, 9]);
    let e = other.intern_leaf(vec![1, 0, 0, 2]);
    assert_eq!(other.hash(e), cache.hash(a));
    assert_ne!(other.hash(d), cache.hash(a));
}

#[test]
fn equal_children_give_one_node() {
    let mut cache = NodeCache::<2>::new();
    let a = cache.intern_leaf(vec![1, 0, 0, 2]);
    let b = cache.intern_leaf(vec![0, 0, 0, 0]);
    let x = cache.intern_node(vec![a, b, b, a]);
    let y = cache.join(vec![a, b, b, a]);
    let z = cache.intern_node(vec![b, a, a, b]);
    assert_eq!(x, y);
    assert_ne!(x, z);
    assert_eq!(cache.layer(x), 2);
    assert_eq!(cache.population(x), BigNum::from_i64(4));
    assert_eq!(cache.child(x, 0), a);
    assert_eq!(cache.child(x, 1), b);
}

#[test]
fn empty_children_give_the_empty_node() {
    let mut cache = NodeCache::<2>::new();
    let e1 = cache.get_empty(1);
    let e2 = cache.get_empty(2);
    let joined = cache.intern_node(vec![e1, e1, e1, e1]);
    assert_eq!(joined, e2);
    assert!(cache.is_empty(e2));
    assert_eq!(cache.get_empty(2), e2);
    assert_eq!(cache.layer(e2), 2);
}

#[test]
fn cells_are_numbered_by_upper_halves() {
    let mut cache = NodeCache::<2>::new();
    let leaf = cache.intern_leaf(vec![10, 11, 12, 13]);
    assert_eq!(cache.cell_at(leaf, &at(0, 0)), 10);
    assert_eq!(cache.cell_at(leaf, &at(1, 0)), 11);
    assert_eq!(cache.cell_at(leaf, &at(0, 1)), 12);
    assert_eq!(cache.cell_at(leaf, &at(1, 1)), 13);
    let other = cache.intern_leaf(vec![20, 21, 22, 23]);
    let node = cache.intern_node(vec![leaf, other, other, leaf]);
    assert_eq!(cache.cell_at(node, &at(1, 1)), 13);
    assert_eq!(cache.cell_at(node, &at(2, 0)), 20);
    assert_eq!(cache.cell_at(node, &at(3, 1)), 23);
    assert_eq!(cache.cell_at(node, &at(0, 3)), 22);
    assert_eq!(cache.cell_at(node, &at(3, 3)), 13);
}

#[test]
fn with_cell_changes_one_cell() {
    let mut cache = NodeCache::<2>::new();
    let empty = cache.get_empty(3);
    let one = cache.with_cell(empty, &at(5, 2), 9);
    assert_eq!(cache.cell_at(one, &at(5, 2)), 9);
    assert_eq!(cache.cell_at(one, &at(2, 5)), 0);
    assert_eq!(cache.cell_at(empty, &at(5, 2)), 0);
    assert_eq!(cache.population(one), BigNum::from_i64(1));
    let back = cache.with_cell(one, &at(5, 2), 0);
    assert_eq!(back, empty);
}

#[test]
fn centred_inner_node_is_the_middle() {
    let mut cache = NodeCache::<2>::new();
    let mut node = cache.get_empty(3);
    for y in 0..8 {
        for x in 0..8 {
            node = cache.with_cell(node, &at(x, y), (1 + x + 8 * y) as u8);
        }
    }
    let inner = cache.centered_inner(node);
    assert_eq!(cache.layer(inner), 2);
    for y in 0..4 {
        for x in 0..4 {
            assert_eq!(cache.cell_at(inner, &at(x, y)), (1 + (x + 2) + 8 * (y + 2)) as u8);
        }
    }
    let window = cache.subnode(node, &vec![2, 0]);
    for y in 0..4 {
        for x in 0..4 {
            assert_eq!(cache.cell_at(window, &at(x, y)), (1 + (x + 4) + 8 * y) as u8);
        }
    }
    assert_eq!(window, cache.child(node, 1));
}

#[test]
fn expanded_node_holds_the_node_in_its_middle() {
    let mut cache = NodeCache::<2>::new();
    let leaf = cache.intern_leaf(vec![1, 2, 3, 4]);
    let wide = cache.expand_node(leaf);
    assert_eq!(cache.layer(wide), 2);
    assert_eq!(cache.population(wide), BigNum::from_i64(4));
    assert_eq!(cache.cell_at(wide, &at(1, 1)), 1);
    assert_eq!(cache.cell_at(wide, &at(2, 1)), 2);
    assert_eq!(cache.cell_at(wide, &at(1, 2)), 3);
    assert_eq!(cache.cell_at(wide, &at(2, 2)), 4);
    assert_eq!(cache.cell_at(wide, &at(0, 0)), 0);
    assert_eq!(cache.cell_at(wide, &at(3, 2)), 0);
    assert_eq!(cache.centered_inner(wide), leaf);
}

#[test]
fn single_state_of_nodes() {
    let mut cache = NodeCache::<2>::new();
    let empty = cache.get_empty(4);
    assert_eq!(cache.single_state(empty), Some(0));
    let sevens = cache.intern_leaf(vec![7, 7, 7, 7]);
    let all = cache.intern_node(vec![sevens, sevens, sevens, sevens]);
    assert_eq!(cache.single_state(all), Some(7));
    let mixed = cache.with_cell(all, &at(3, 0), 0);
    assert_eq!(cache.single_state(mixed), None);
    let leaf = cache.intern_leaf(vec![7, 7, 7, 1]);
    assert_eq!(cache.single_state(leaf), None);
}

#[test]
fn number_of_cells_of_a_node() {
    let mut cache = NodeCache::<3>::new();
    let node = cache.get_empty(4);
    assert_eq!(cache.big_num_cells(node), BigNum::from_i64(4096));
    let leaf = cache.get_empty(1);
    assert_eq!(cache.big_num_cells(leaf), BigNum::from_i64(8));
}

#[test]
fn memoized_results_are_found_by_generations() {
    let mut cache = NodeCache::<2>::new();
    let big = cache.get_empty(3);
    let small = cache.get_empty(2);
    assert_eq!(cache.get_result(big, &BigNum::from_i64(2)), None);
    cache.set_result(big, BigNum::from_i64(2), small);
    assert_eq!(cache.get_result(big, &BigNum::from_i64(2)), Some(small));
    assert_eq!(cache.get_result(big, &BigNum::from_i64(1)), None);
    cache.clear_results();
    assert_eq!(cache.get_result(big, &BigNum::from_i64(2)), None);
}

#[test]
fn slice_is_the_smallest_subtree_around_a_rectangle() {
    let mut cache = NodeCache::<2>::new();
    let mut tree = NdTree::new(&mut cache);
    tree.set_cell(&mut cache, &at(5, 6), 3);
    tree.set_cell(&mut cache, &at(-7, 2), 4);
    assert_eq!(tree.root_layer(&cache), 4);
    let slice = tree.slice_containing(&cache, &BigRect::span(&at(4, 4), &at(5, 7)));
    assert_eq!(slice.root_layer(&cache), 2);
    assert_eq!(slice.offset.to_i64(), Some(vec![4, 4]));
    assert_eq!(slice.get_cell(&cache, &at(5, 6)), 3);
    assert_eq!(slice.get_cell(&cache, &at(-7, 2)), 0);
    let wide = tree.slice_containing(&cache, &BigRect::span(&at(0, 0), &at(-1, 0)));
    assert_eq!(wide.get_root(), tree.get_root());
    let outside = tree.slice_containing(&cache, &BigRect::span(&at(0, 0), &at(100, 0)));
    assert_eq!(outside.get_root(), tree.get_root());
    assert_eq!(outside.offset.to_i64(), tree.offset.to_i64());
    let cell = tree.slice_between(&cache, &at(5, 6), &at(5, 6));
    assert_eq!(cell.root_layer(&cache), 1);
    assert_eq!(cell.get_cell(&cache, &at(5, 6)), 3);
}

#[test]
fn set_cells_applies_writes_in_order() {
    let mut cache = NodeCache::<2>::new();
    let mut tree = NdTree::new(&mut cache);
    let writes = vec![(at(1, 1), 5), (at(-3, 0), 6), (at(1, 1), 7), (at(9, 9), 0)];
    tree.set_cells(&mut cache, &writes);
    assert_eq!(tree.get_cell(&cache, &at(1, 1)), 7);
    assert_eq!(tree.get_cell(&cache, &at(-3, 0)), 6);
    assert_eq!(tree.get_cell(&cache, &at(9, 9)), 0);
    assert_eq!(tree.population(&cache), BigNum::from_i64(2));
}

#[test]
fn set_root_centered_keeps_the_centre() {
    let mut cache = NodeCache::<2>::new();
    let mut tree = NdTree::new(&mut cache);
    let wide = cache.get_empty(5);
    tree.set_root_centered(&cache, wide);
    assert_eq!(tree.get_root(), wide);
    assert_eq!(tree.offset.to_i64(), Some(vec![-16, -16]));
    assert_eq!(tree.len(&cache), BigNum::from_i64(32));
    let small = cache.get_empty(2);
    tree.set_root(small);
    assert_eq!(tree.get_root(), small);
    assert_eq!(tree.offset.to_i64(), Some(vec![-16, -16]));
}

#[test]
fn automaton_counts_generations() {
    let mut automaton: NdAutomaton<Life, 2> = NdAutomaton::new(Life).unwrap();
    for (x, y) in [(0, 0), (0, 1), (0, 2)] {
        automaton.set_cell(&at(x, y), 1);
    }
    assert_eq!(automaton.generation_count(), BigNum::from_i64(0));
    assert_eq!(automaton.step(&BigNum::from_i64(3)), Ok(()));
    assert_eq!(automaton.step(&BigNum::from_i64(4)), Ok(()));
    assert_eq!(automaton.generation_count(), BigNum::from_i64(7));
    assert_eq!(automaton.get_cell(&at(-1, 1)), 1);
    assert_eq!(automaton.get_cell(&at(0, 0)), 0);
    assert_eq!(automaton.population(), BigNum::from_i64(3));
    assert_eq!(automaton.step(&BigNum::from_i64(0)), Err(SimError::InvalidStepSize));
    assert_eq!(automaton.generation_count(), BigNum::from_i64(7));
}

#[test]
fn automaton_refuses_a_radius_too_large() {
    let made: Result<NdAutomaton<Flood, 6>, SimError> =
        NdAutomaton::new(Flood { radius: 1 << 20 });
    assert!(matches!(made, Err(SimError::RuleRadiusTooLargeForTree)));
}

#[test]
fn rectangles() {
    let a = BigRect::span(&at(3, -1), &at(-2, 4));
    assert_eq!(a.min.to_i64(), Some(vec![-2, -1]));
    assert_eq!(a.max.to_i64(), Some(vec![3, 4]));
    assert!(a.contains_pos(&at(3, 4)));
    assert!(a.contains_pos(&at(-2, -1)));
    assert!(!a.contains_pos(&at(4, 0)));
    assert_eq!(a.len(Axis::X), BigNum::from_i64(6));
    assert_eq!(a.len(Axis::Y), BigNum::from_i64(6));
    let b = BigRect::span(&at(0, 0), &at(10, 2));
    let both = a.intersection(&b).unwrap();
    assert_eq!(both.min.to_i64(), Some(vec![0, 0]));
    assert_eq!(both.max.to_i64(), Some(vec![3, 2]));
    let far = BigRect::span(&at(4, 0), &at(10, 2));
    assert!(a.intersection(&far).is_none());
}

#[test]
fn rectangle_of_a_tree() {
    let mut cache = NodeCache::<2>::new();
    let mut tree = NdTree::new(&mut cache);
    tree.set_cell(&mut cache, &at(5, 0), 1);
    let rect = tree.rect(&cache);
    assert_eq!(rect.min.to_i64(), Some(vec![-8, -8]));
    assert_eq!(rect.max.to_i64(), Some(vec![7, 7]));
    assert_eq!(rect.len(Axis::X), tree.len(&cache));
    tree.shrink(&mut cache);
    assert_eq!(tree.rect(&cache).len(Axis::X), BigNum::from_i64(16));
}

#[test]
fn garbage_collection_keeps_the_grid_and_drops_the_rest() {
    let mut automaton: NdAutomaton<Life, 2> = NdAutomaton::new(Life).unwrap();
    for (x, y) in [(1, 0), (2, 0), (0, 1), (1, 1), (1, 2)] {
        automaton.set_cell(&at(x, y), 1);
    }
    assert_eq!(automaton.step(&BigNum::from_i64(200)), Ok(()));
    let before = automaton.cache.len();
    let population = automaton.population();
    let mut cells = Vec::new();
    for y in -40..40 {
        for x in -40..40 {
            cells.push(automaton.get_cell(&at(x, y)));
        }
    }
    automaton.collect_garbage();
    assert!(automaton.cache.len() < before / 4);
    assert_eq!(automaton.population(), population);
    assert_eq!(automaton.generation_count(), BigNum::from_i64(200));
    let mut again = Vec::new();
    for y in -40..40 {
        for x in -40..40 {
            again.push(automaton.get_cell(&at(x, y)));
        }
    }
    assert_eq!(again, cells);
    assert_eq!(automaton.step(&BigNum::from_i64(903)), Ok(()));
    assert_eq!(automaton.population(), BigNum::from_i64(116));
}

#[test]
fn collecting_copies_roots_and_empty_nodes() {
    let mut cache = NodeCache::<2>::new();
    let mut tree = NdTree::new(&mut cache);
    tree.set_cell(&mut cache, &at(3, 3), 5);
    tree.set_cell(&mut cache, &at(3, 3), 0);
    tree.set_cell(&mut cache, &at(-2, 1), 7);
    let (fresh, roots) = cache.collect(&vec![tree.get_root(), tree.get_root()]);
    assert_eq!(roots[0], roots[1]);
    assert!(fresh.len() < cache.len());
    assert_eq!(fresh.empties.len(), cache.empties.len());
    assert_eq!(fresh.layer(roots[0]), cache.layer(tree.get_root()));
    assert_eq!(fresh.population(roots[0]), BigNum::from_i64(1));
    let copy = NdTree::<2> { root: roots[0], offset: tree.offset.copy() };
    assert_eq!(copy.get_cell(&fresh, &at(-2, 1)), 7);
    assert_eq!(copy.get_cell(&fresh, &at(3, 3)), 0);
}
