use ndcell::big::BigNum;
use ndcell::cache::NodeCache;
use ndcell::ndtree::NdTree;
use ndcell::ndvec::BigVec;
use ndcell::rule::{DummyRule, Flood, Invert, Life};
use ndcell::sim::{SimError, Simulation};

fn at(x: i64, y: i64) -> BigVec<2> {
    BigVec::<2>::from_i64([x, y])
}

fn tree_of(cache: &mut NodeCache<2>, cells: &[(i64, i64)]) -> NdTree<2> {
    let mut tree = NdTree::new(cache);
    for &(x, y) in cells {
        tree.set_cell(cache, &at(x, y), 1);
    }
    tree
}

fn live_cells(tree: &NdTree<2>, cache: &NodeCache<2>, lo: i64, hi: i64) -> Vec<(i64, i64)> {
    let mut out = Vec::new();
    for y in lo..hi {
        for x in lo..hi {
            if tree.get_cell(cache, &at(x, y)) != 0 {
                out.push((x, y));
            }
        }
    }
    out
}

fn sorted(mut cells: Vec<(i64, i64)>) -> Vec<(i64, i64)> {
    cells.sort_by_key(|&(x, y)| (y, x));
    cells
}

fn life() -> Simulation<Life, 2> {
    Simulation::new(Life).unwrap()
}

#[test]
fn life_has_minimum_layer_two() {
    let sim = life();
    assert_eq!(sim.min_layer, 2);
    assert_eq!(sim.quarter, 1);
    assert_eq!(sim.neighbors, 9);
    assert!(!sim.b0);
}

#[test]
fn blinker_after_one_generation() {
    let mut cache = NodeCache::<2>::new();
    let mut tree = tree_of(&mut cache, &[(0, 0), (0, 1), (0, 2)]);
    assert_eq!(tree.population(&cache), BigNum::from_i64(3));
    let sim = life();
    assert_eq!(sim.step(&mut tree, &mut cache, &BigNum::from_i64(1)), Ok(()));
    assert_eq!(live_cells(&tree, &cache, -8, 8), vec![(-1, 1), (0, 1), (1, 1)]);
    assert_eq!(tree.population(&cache), BigNum::from_i64(3));
}

#[test]
fn blinker_has_period_two() {
    let mut cache = NodeCache::<2>::new();
    let mut tree = tree_of(&mut cache, &[(0, 0), (0, 1), (0, 2)]);
    let sim = life();
    assert_eq!(sim.step(&mut tree, &mut cache, &BigNum::from_i64(2)), Ok(()));
    assert_eq!(live_cells(&tree, &cache, -8, 8), vec![(0, 0), (0, 1), (0, 2)]);
    assert_eq!(sim.step(&mut tree, &mut cache, &BigNum::from_i64(7)), Ok(()));
    assert_eq!(live_cells(&tree, &cache, -8, 8), vec![(-1, 1), (0, 1), (1, 1)]);
}

#[test]
fn block_after_1024_generations() {
    let mut cache = NodeCache::<2>::new();
    let mut tree = tree_of(&mut cache, &[(0, 0), (0, 1), (1, 0), (1, 1)]);
    let sim = life();
    assert_eq!(sim.step(&mut tree, &mut cache, &BigNum::from_i64(1024)), Ok(()));
    assert_eq!(live_cells(&tree, &cache, -8, 8), vec![(0, 0), (1, 0), (0, 1), (1, 1)]);
    assert_eq!(tree.population(&cache), BigNum::from_i64(4));
}

#[test]
fn glider_after_four_generations() {
    let start = [(1, 0), (2, 1), (0, 2), (1, 2), (2, 2)];
    let mut cache = NodeCache::<2>::new();
    let mut tree = tree_of(&mut cache, &start);
    let sim = life();
    assert_eq!(sim.step(&mut tree, &mut cache, &BigNum::from_i64(4)), Ok(()));
    let moved: Vec<(i64, i64)> = start.iter().map(|&(x, y)| (x + 1, y + 1)).collect();
    assert_eq!(live_cells(&tree, &cache, -16, 16), sorted(moved));
    assert_eq!(tree.population(&cache), BigNum::from_i64(5));
}

#[test]
fn glider_travels_far() {
    let start = [(1, 0), (2, 1), (0, 2), (1, 2), (2, 2)];
    let mut cache = NodeCache::<2>::new();
    let mut tree = tree_of(&mut cache, &start);
    let sim = life();
    assert_eq!(sim.step(&mut tree, &mut cache, &BigNum::from_i64(4000)), Ok(()));
    assert_eq!(tree.population(&cache), BigNum::from_i64(5));
    for &(x, y) in &start {
        assert_eq!(tree.get_cell(&cache, &at(x + 1000, y + 1000)), 1);
    }
    assert_eq!(tree.get_cell(&cache, &at(1000, 1000)), 0);
}

#[test]
fn empty_grid_after_a_billion_generations() {
    let mut cache = NodeCache::<2>::new();
    let mut tree = NdTree::new(&mut cache);
    while tree.root_layer(&cache) < 4 {
        tree.expand(&mut cache);
    }
    let sim = life();
    assert_eq!(sim.step(&mut tree, &mut cache, &BigNum::from_i64(1_000_000_000)), Ok(()));
    assert_eq!(tree.population(&cache), BigNum::from_i64(0));
    assert_eq!(live_cells(&tree, &cache, -8, 8), vec![]);
    assert_eq!(tree.root_layer(&cache), 1);
    for id in 0..cache.len() {
        assert!(cache.is_empty(id));
    }
    let mut layers: Vec<usize> = (0..cache.len()).map(|id| cache.layer(id)).collect();
    layers.sort();
    layers.dedup();
    assert_eq!(layers.len(), cache.len());
}

#[test]
fn same_pattern_twice_gives_same_root() {
    let mut cache = NodeCache::<2>::new();
    let mut first = tree_of(&mut cache, &[(0, 0), (0, 1), (0, 2)]);
    let mut second = tree_of(&mut cache, &[(0, 2), (0, 0), (0, 1)]);
    second.expand(&mut cache);
    first.shrink(&mut cache);
    second.shrink(&mut cache);
    assert_eq!(first.get_root(), second.get_root());
    assert_eq!(first.offset.to_i64(), second.offset.to_i64());
}

#[test]
fn steps_add_up() {
    let start = [(1, 0), (2, 1), (0, 2), (1, 2), (2, 2), (7, 7), (7, 8), (7, 9), (-3, 4), (-3, 5)];
    let sim = life();
    let mut cache = NodeCache::<2>::new();
    let mut split = tree_of(&mut cache, &start);
    assert_eq!(sim.step(&mut split, &mut cache, &BigNum::from_i64(100)), Ok(()));
    assert_eq!(sim.step(&mut split, &mut cache, &BigNum::from_i64(23)), Ok(()));
    let mut whole = tree_of(&mut cache, &start);
    assert_eq!(sim.step(&mut whole, &mut cache, &BigNum::from_i64(123)), Ok(()));
    assert_eq!(live_cells(&split, &cache, -64, 64), live_cells(&whole, &cache, -64, 64));
    assert_eq!(split.population(&cache), whole.population(&cache));
}

#[test]
fn step_is_deterministic() {
    let start = [(0, 0), (1, 0), (2, 0), (2, 1), (1, 2)];
    let sim = life();
    let mut cache_a = NodeCache::<2>::new();
    let mut a = tree_of(&mut cache_a, &start);
    let mut cache_b = NodeCache::<2>::new();
    let mut b = tree_of(&mut cache_b, &start);
    assert_eq!(sim.step(&mut a, &mut cache_a, &BigNum::from_i64(37)), Ok(()));
    assert_eq!(sim.step(&mut b, &mut cache_b, &BigNum::from_i64(37)), Ok(()));
    assert_eq!(live_cells(&a, &cache_a, -32, 32), live_cells(&b, &cache_b, -32, 32));
}

#[test]
fn step_with_memo_agrees_with_step() {
    let start = [(0, 0), (1, 0), (2, 0), (2, 1), (1, 2)];
    let sim = life();
    let mut cache = NodeCache::<2>::new();
    let mut a = tree_of(&mut cache, &start);
    let mut b = tree_of(&mut cache, &start);
    assert_eq!(sim.step(&mut a, &mut cache, &BigNum::from_i64(5)), Ok(()));
    assert_eq!(sim.step_with_memo(&mut a, &mut cache, &BigNum::from_i64(6)), Ok(()));
    assert_eq!(sim.step_with_memo(&mut b, &mut cache, &BigNum::from_i64(11)), Ok(()));
    assert_eq!(live_cells(&a, &cache, -32, 32), live_cells(&b, &cache, -32, 32));
}

#[test]
fn step_rejects_step_sizes_that_are_not_positive() {
    let sim = life();
    let mut cache = NodeCache::<2>::new();
    let mut tree = tree_of(&mut cache, &[(0, 0), (0, 1), (0, 2)]);
    let layer = tree.root_layer(&cache);
    assert_eq!(
        sim.step(&mut tree, &mut cache, &BigNum::from_i64(0)),
        Err(SimError::InvalidStepSize)
    );
    assert_eq!(
        sim.step(&mut tree, &mut cache, &BigNum::from_i64(-5)),
        Err(SimError::InvalidStepSize)
    );
    assert_eq!(tree.root_layer(&cache), layer);
    assert_eq!(live_cells(&tree, &cache, -8, 8), vec![(0, 0), (0, 1), (0, 2)]);
}

#[test]
fn population_stays_within_bound_after_one_step() {
    let start = [(0, 0), (1, 0), (2, 0), (2, 1), (1, 2), (5, 5), (6, 5), (5, 6)];
    let sim = life();
    let mut cache = NodeCache::<2>::new();
    let mut tree = tree_of(&mut cache, &start);
    let before = tree.population(&cache).to_i64().unwrap();
    assert_eq!(sim.step(&mut tree, &mut cache, &BigNum::from_i64(1)), Ok(()));
    let after = tree.population(&cache).to_i64().unwrap();
    assert!(after <= before * 9);
}

#[test]
fn dummy_rule_changes_nothing() {
    let sim: Simulation<DummyRule, 2> = Simulation::from(DummyRule).unwrap();
    assert_eq!(sim.min_layer, 2);
    assert_eq!(sim.neighbors, 1);
    let mut cache = NodeCache::<2>::new();
    let mut tree = NdTree::new(&mut cache);
    tree.set_cell(&mut cache, &at(3, 4), 7);
    tree.set_cell(&mut cache, &at(-2, 0), 9);
    assert_eq!(sim.step(&mut tree, &mut cache, &BigNum::from_i64(1000)), Ok(()));
    assert_eq!(tree.get_cell(&cache, &at(3, 4)), 7);
    assert_eq!(tree.get_cell(&cache, &at(-2, 0)), 9);
    assert_eq!(tree.population(&cache), BigNum::from_i64(2));
}

#[test]
fn dummy_rule_in_three_dimensions() {
    let sim: Simulation<DummyRule, 3> = Simulation::new(DummyRule).unwrap();
    let mut cache = NodeCache::<3>::new();
    let mut tree = NdTree::new(&mut cache);
    let p = BigVec::<3>::from_i64([1, 2, 3]);
    tree.set_cell(&mut cache, &p, 5);
    assert_eq!(sim.step(&mut tree, &mut cache, &BigNum::from_i64(17)), Ok(()));
    assert_eq!(tree.get_cell(&cache, &p), 5);
    assert_eq!(tree.population(&cache), BigNum::from_i64(1));
}

#[test]
fn wide_rule_in_one_dimension() {
    let sim: Simulation<Flood, 1> = Simulation::new(Flood { radius: 2 }).unwrap();
    assert_eq!(sim.min_layer, 3);
    assert_eq!(sim.neighbors, 5);
    let mut cache = NodeCache::<1>::new();
    let mut tree = NdTree::new(&mut cache);
    tree.set_cell(&mut cache, &BigVec::<1>::from_i64([0]), 1);
    assert_eq!(sim.step(&mut tree, &mut cache, &BigNum::from_i64(3)), Ok(()));
    for x in -10..=10 {
        let expected = if (-6..=6).contains(&x) { 1 } else { 0 };
        assert_eq!(tree.get_cell(&cache, &BigVec::<1>::from_i64([x])), expected);
    }
    assert_eq!(tree.population(&cache), BigNum::from_i64(13));
}

#[test]
fn rule_that_fires_on_empty_space_is_not_cut_short() {
    let sim: Simulation<Invert, 1> = Simulation::new(Invert).unwrap();
    assert!(sim.b0);
    let mut cache = NodeCache::<1>::new();
    let mut tree = NdTree::new(&mut cache);
    assert_eq!(sim.step(&mut tree, &mut cache, &BigNum::from_i64(1)), Ok(()));
    assert_eq!(tree.get_cell(&cache, &BigVec::<1>::from_i64([0])), 1);
    assert_eq!(tree.get_cell(&cache, &BigVec::<1>::from_i64([-1])), 1);
}

#[test]
fn flood_fills_a_square_in_two_dimensions() {
    let sim: Simulation<Flood, 2> = Simulation::new(Flood { radius: 1 }).unwrap();
    let mut cache = NodeCache::<2>::new();
    let mut tree = NdTree::new(&mut cache);
    tree.set_cell(&mut cache, &at(0, 0), 1);
    assert_eq!(sim.step(&mut tree, &mut cache, &BigNum::from_i64(5)), Ok(()));
    assert_eq!(tree.population(&cache), BigNum::from_i64(121));
    assert_eq!(tree.get_cell(&cache, &at(5, -5)), 1);
    assert_eq!(tree.get_cell(&cache, &at(6, 0)), 0);
}

#[test]
fn radius_too_large_is_refused() {
    let sim: Result<Simulation<Flood, 6>, SimError> = Simulation::new(Flood { radius: usize::MAX / 2 });
    assert!(matches!(sim, Err(SimError::RuleRadiusTooLargeForTree)));
    let sim: Result<Simulation<Flood, 6>, SimError> = Simulation::new(Flood { radius: 300 });
    assert!(matches!(sim, Err(SimError::RuleRadiusTooLargeForTree)));
    let sim: Result<Simulation<Flood, 6>, SimError> = Simulation::new(Flood { radius: 2 });
    assert!(sim.is_ok());
}

#[test]
fn r_pentomino_settles_with_116_cells() {
    let mut cache = NodeCache::<2>::new();
    let mut tree = tree_of(&mut cache, &[(1, 0), (2, 0), (0, 1), (1, 1), (1, 2)]);
    let sim = life();
    assert_eq!(sim.step(&mut tree, &mut cache, &BigNum::from_i64(1103)), Ok(()));
    assert_eq!(tree.population(&cache), BigNum::from_i64(116));
    let settled = tree.population(&cache);
    assert_eq!(sim.step_with_memo(&mut tree, &mut cache, &BigNum::from_i64(4)), Ok(()));
    assert_eq!(tree.population(&cache), settled);
}

#[test]
fn step_leaves_the_tree_shrunk_around_its_centre() {
    let mut cache = NodeCache::<2>::new();
    let mut tree = tree_of(&mut cache, &[(0, 0), (0, 1), (1, 0), (1, 1)]);
    let sim = life();
    assert_eq!(sim.step(&mut tree, &mut cache, &BigNum::from_i64(50)), Ok(()));
    assert_eq!(tree.root_layer(&cache), 2);
    assert_eq!(tree.offset.to_i64(), Some(vec![-2, -2]));
}

#[test]
fn flood_fills_a_cube_in_three_dimensions() {
    let sim: Simulation<Flood, 3> = Simulation::new(Flood { radius: 1 }).unwrap();
    let mut cache = NodeCache::<3>::new();
    let mut tree = NdTree::new(&mut cache);
    tree.set_cell(&mut cache, &BigVec::<3>::from_i64([2, -1, 0]), 1);
    assert_eq!(sim.step(&mut tree, &mut cache, &BigNum::from_i64(3)), Ok(()));
    assert_eq!(tree.population(&cache), BigNum::from_i64(343));
    assert_eq!(tree.get_cell(&cache, &BigVec::<3>::from_i64([5, 2, -3])), 1);
    assert_eq!(tree.get_cell(&cache, &BigVec::<3>::from_i64([6, 2, -3])), 0);
}

#[test]
fn flood_with_radius_three_in_one_dimension() {
    let sim: Simulation<Flood, 1> = Simulation::new(Flood { radius: 3 }).unwrap();
    assert_eq!(sim.min_layer, 4);
    assert_eq!(sim.quarter, 4);
    assert_eq!(sim.neighbors, 7);
    let mut cache = NodeCache::<1>::new();
    let mut tree = NdTree::new(&mut cache);
    tree.set_cell(&mut cache, &BigVec::<1>::from_i64([10]), 1);
    assert_eq!(sim.step(&mut tree, &mut cache, &BigNum::from_i64(5)), Ok(()));
    assert_eq!(tree.population(&cache), BigNum::from_i64(31));
    assert_eq!(tree.get_cell(&cache, &BigVec::<1>::from_i64([25])), 1);
    assert_eq!(tree.get_cell(&cache, &BigVec::<1>::from_i64([26])), 0);
    assert_eq!(tree.get_cell(&cache, &BigVec::<1>::from_i64([-5])), 1);
    assert_eq!(tree.get_cell(&cache, &BigVec::<1>::from_i64([-6])), 0);
}

#[test]
fn block_after_more_generations_than_a_machine_word_counts() {
    let mut cache = NodeCache::<2>::new();
    let mut tree = tree_of(&mut cache, &[(0, 0), (0, 1), (1, 0), (1, 1)]);
    let sim = life();
    let long = BigNum::pow2(100).add(&BigNum::from_i64(12345));
    assert_eq!(sim.step(&mut tree, &mut cache, &long), Ok(()));
    assert_eq!(live_cells(&tree, &cache, -8, 8), vec![(0, 0), (1, 0), (0, 1), (1, 1)]);
    assert_eq!(tree.population(&cache), BigNum::from_i64(4));
}

#[test]
fn six_dimensions() {
    let sim: Simulation<DummyRule, 6> = Simulation::new(DummyRule).unwrap();
    let mut cache = NodeCache::<6>::new();
    let mut tree = NdTree::new(&mut cache);
    let p = BigVec::<6>::from_i64([1, -2, 3, -4, 5, -6]);
    tree.set_cell(&mut cache, &p, 9);
    assert_eq!(tree.get_cell(&cache, &p), 9);
    assert_eq!(sim.step(&mut tree, &mut cache, &BigNum::from_i64(2)), Ok(()));
    assert_eq!(tree.get_cell(&cache, &p), 9);
    assert_eq!(tree.population(&cache), BigNum::from_i64(1));
}

#[test]
fn inversion_twice_gives_the_pattern_back_within_the_root() {
    let sim: Simulation<Invert, 1> = Simulation::new(Invert).unwrap();
    let mut cache = NodeCache::<1>::new();
    let mut tree = NdTree::new(&mut cache);
    tree.set_cell(&mut cache, &BigVec::<1>::from_i64([0]), 1);
    assert_eq!(sim.step(&mut tree, &mut cache, &BigNum::from_i64(2)), Ok(()));
    assert_eq!(tree.get_cell(&cache, &BigVec::<1>::from_i64([0])), 1);
    assert_eq!(tree.population(&cache), BigNum::from_i64(1));
}

#[test]
fn empty_node_advances_to_its_first_child_without_interning() {
    let sim = life();
    let mut cache = NodeCache::<2>::new();
    let node = cache.get_empty(5);
    let below = cache.get_empty(4);
    let nodes = cache.len();
    let long = BigNum::from_i64(1_000_000_000);
    let result = sim.advance_inner_node(&mut cache, node, &long);
    assert_eq!(result, below);
    assert_eq!(result, cache.child(node, 0));
    assert_eq!(cache.len(), nodes);
    assert_eq!(cache.get_result(node, &long), Some(below));
    let again = sim.advance_inner_node(&mut cache, node, &long);
    assert_eq!(again, below);
    let none = sim.advance_inner_node(&mut cache, node, &BigNum::from_i64(0));
    assert_eq!(none, below);
    assert_eq!(cache.len(), nodes);
}

#[test]
fn garbage_is_not_copied() {
    let mut cache = NodeCache::<2>::new();
    let kept = cache.intern_leaf(vec![1, 2, 3, 4]);
    let dropped = cache.intern_leaf(vec![5, 6, 7, 8]);
    let pair = cache.intern_node(vec![kept, kept, kept, kept]);
    let other = cache.intern_node(vec![dropped, kept, kept, dropped]);
    assert_eq!(cache.len(), 4);
    cache.set_result(pair, BigNum::from_i64(1), kept);
    let (fresh, roots) = cache.collect(&vec![pair]);
    assert_eq!(fresh.len(), 2);
    assert_eq!(fresh.layer(roots[0]), 2);
    assert_eq!(fresh.child(roots[0], 3), fresh.child(roots[0], 0));
    assert_eq!(fresh.leaf_cell(fresh.child(roots[0], 0), 2), 3);
    assert!(fresh.results.iter().all(|list| list.is_empty()));
    assert!(other < cache.len());
}
