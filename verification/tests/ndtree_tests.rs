use ndcell::big::BigNum;
use ndcell::cache::NodeCache;
use ndcell::ndtree::NdTree;
use ndcell::ndvec::BigVec;

fn at(x: i64, y: i64) -> BigVec<2> {
    BigVec::<2>::from_i64([x, y])
}

#[test]
fn new_tree_is_empty_layer_one() {
    let mut cache = NodeCache::<2>::new();
    let tree = NdTree::new(&mut cache);
    assert_eq!(tree.root_layer(&cache), 1);
    assert_eq!(tree.population(&cache), BigNum::from_i64(0));
    assert_eq!(tree.offset.to_i64(), Some(vec![-1, -1]));
    assert_eq!(tree.get_cell(&cache, &at(0, 0)), 0);
    assert_eq!(tree.get_cell(&cache, &at(-1, -1)), 0);
    assert_eq!(tree.get_cell(&cache, &at(1000, -1000)), 0);
}

#[test]
fn set_then_get_returns_last_state() {
    let mut cache = NodeCache::<2>::new();
    let mut tree = NdTree::new(&mut cache);
    tree.set_cell(&mut cache, &at(3, -7), 5);
    tree.set_cell(&mut cache, &at(0, 0), 1);
    tree.set_cell(&mut cache, &at(3, -7), 9);
    tree.set_cell(&mut cache, &at(-100, 250), 2);
    assert_eq!(tree.get_cell(&cache, &at(3, -7)), 9);
    assert_eq!(tree.get_cell(&cache, &at(0, 0)), 1);
    assert_eq!(tree.get_cell(&cache, &at(-100, 250)), 2);
    assert_eq!(tree.get_cell(&cache, &at(1, 1)), 0);
    assert_eq!(tree.population(&cache), BigNum::from_i64(3));
    tree.set_cell(&mut cache, &at(0, 0), 0);
    assert_eq!(tree.get_cell(&cache, &at(0, 0)), 0);
    assert_eq!(tree.population(&cache), BigNum::from_i64(2));
}

#[test]
fn expand_keeps_cells_and_population() {
    let mut cache = NodeCache::<2>::new();
    let mut tree = NdTree::new(&mut cache);
    tree.set_cell(&mut cache, &at(0, 0), 1);
    tree.set_cell(&mut cache, &at(-1, 0), 2);
    let layer = tree.root_layer(&cache);
    tree.expand(&mut cache);
    assert_eq!(tree.root_layer(&cache), layer + 1);
    assert_eq!(tree.get_cell(&cache, &at(0, 0)), 1);
    assert_eq!(tree.get_cell(&cache, &at(-1, 0)), 2);
    assert_eq!(tree.get_cell(&cache, &at(-2, -2)), 0);
    assert_eq!(tree.population(&cache), BigNum::from_i64(2));
    assert_eq!(tree.offset.to_i64(), Some(vec![-2, -2]));
}

#[test]
fn shrink_undoes_expansion() {
    let mut cache = NodeCache::<2>::new();
    let mut tree = NdTree::new(&mut cache);
    tree.set_cell(&mut cache, &at(0, 0), 1);
    for _ in 0..5 {
        tree.expand(&mut cache);
    }
    assert_eq!(tree.root_layer(&cache), 6);
    let count = tree.shrink(&mut cache);
    assert_eq!(count, 5);
    assert_eq!(tree.root_layer(&cache), 1);
    assert_eq!(tree.get_cell(&cache, &at(0, 0)), 1);
    assert_eq!(tree.population(&cache), BigNum::from_i64(1));
    assert_eq!(tree.offset.to_i64(), Some(vec![-1, -1]));
}

#[test]
fn shrink_stops_at_outer_cell() {
    let mut cache = NodeCache::<2>::new();
    let mut tree = NdTree::new(&mut cache);
    tree.set_cell(&mut cache, &at(5, 0), 1);
    let layer = tree.root_layer(&cache);
    tree.expand(&mut cache);
    tree.expand(&mut cache);
    let count = tree.shrink(&mut cache);
    assert_eq!(count, 2);
    assert_eq!(tree.root_layer(&cache), layer);
    assert_eq!(tree.get_cell(&cache, &at(5, 0)), 1);
}

#[test]
fn expand_to_counts_expansions() {
    let mut cache = NodeCache::<2>::new();
    let mut tree = NdTree::new(&mut cache);
    assert_eq!(tree.expand_to(&mut cache, &at(0, -1)), 0);
    assert_eq!(tree.expand_to(&mut cache, &at(1, 0)), 1);
    assert_eq!(tree.expand_to(&mut cache, &at(-4, 3)), 1);
    assert_eq!(tree.expand_to(&mut cache, &at(-5, 3)), 1);
    assert_eq!(tree.root_layer(&cache), 4);
}

#[test]
fn recenter_moves_origin() {
    let mut cache = NodeCache::<2>::new();
    let mut tree = NdTree::new(&mut cache);
    tree.set_cell(&mut cache, &at(10, 20), 7);
    tree.recenter(&cache, &at(10, 20));
    assert_eq!(tree.get_cell(&cache, &at(0, 0)), 7);
    assert_eq!(tree.get_cell(&cache, &at(10, 20)), 0);
}

#[test]
fn positions_beyond_machine_words() {
    let mut cache = NodeCache::<1>::new();
    let mut tree = NdTree::new(&mut cache);
    let far = BigVec::<1> { coords: vec![BigNum::pow2(100)] };
    tree.set_cell(&mut cache, &far, 3);
    assert_eq!(tree.get_cell(&cache, &far), 3);
    assert_eq!(tree.root_layer(&cache), 102);
    assert_eq!(tree.population(&cache), BigNum::from_i64(1));
    let near = BigVec::<1>::from_i64([0]);
    assert_eq!(tree.get_cell(&cache, &near), 0);
}

#[test]
fn three_dimensional_round_trip() {
    let mut cache = NodeCache::<3>::new();
    let mut tree = NdTree::new(&mut cache);
    let a = BigVec::<3>::from_i64([1, -2, 3]);
    let b = BigVec::<3>::from_i64([-9, 0, 4]);
    tree.set_cell(&mut cache, &a, 11);
    tree.set_cell(&mut cache, &b, 12);
    assert_eq!(tree.get_cell(&cache, &a), 11);
    assert_eq!(tree.get_cell(&cache, &b), 12);
    assert_eq!(tree.get_cell(&cache, &BigVec::<3>::from_i64([1, -2, 4])), 0);
    assert_eq!(tree.population(&cache), BigNum::from_i64(2));
}
