use allrgb::color::{dist2, Lab};
use allrgb::coords::{coord_to_int, int_to_coord};
use allrgb::catalog::{rgb_of_index, shuffled_order};
use allrgb::engine::check_exact_cover;
use allrgb::frontier::Frontier;
use allrgb::grid::Grid;

#[test]
fn pack_round_trip() {
    for x in [0usize, 1, 5, 2048, 4095] {
        for y in [0usize, 1, 7, 2048, 4095] {
            assert_eq!(int_to_coord(coord_to_int(x, y)), (x, y));
        }
    }
    assert_eq!(coord_to_int(2, 3), 2 * 4096 + 3);
    assert_eq!(int_to_coord(4096), (1, 0));
}

#[test]
fn distance_is_squared_euclidean() {
    assert_eq!(dist2(&Lab::new(1, 2, 3), &Lab::new(4, 0, 3)), 9 + 4);
    assert_eq!(dist2(&Lab::new(7, 7, 7), &Lab::new(7, 7, 7)), 0);
    assert_eq!(dist2(&Lab::new(0, 0, 0), &Lab::new(1, 1, 1)), 3);
}

#[test]
fn neighbor_counts() {
    let g = Grid::new(3);
    assert_eq!(g.neighbors(0, 0).len(), 3);
    assert_eq!(g.neighbors(0, 2).len(), 3);
    assert_eq!(g.neighbors(2, 0).len(), 3);
    assert_eq!(g.neighbors(2, 2).len(), 3);
    assert_eq!(g.neighbors(0, 1).len(), 5);
    assert_eq!(g.neighbors(1, 0).len(), 5);
    assert_eq!(g.neighbors(1, 2).len(), 5);
    assert_eq!(g.neighbors(1, 1).len(), 8);
    for &(x, y) in g.neighbors(1, 1).iter() {
        assert!(x < 3 && y < 3);
    }
    for &(x, y) in g.neighbors(0, 0).iter() {
        assert!(x < 3 && y < 3);
    }
    let g1 = Grid::new(1);
    assert_eq!(g1.neighbors(0, 0).len(), 0);
}

#[test]
fn grid_set_then_get() {
    let mut g = Grid::new(4);
    assert_eq!(g.side(), 4);
    assert_eq!(g.get(2, 3), None);
    g.set(2, 3, 7);
    assert_eq!(g.get(2, 3), Some(7));
    assert_eq!(g.get(3, 2), None);
}

#[test]
fn empty_neighbor_filter() {
    let mut g = Grid::new(3);
    g.set(0, 1, 1);
    g.set(1, 0, 2);
    let en = g.empty_neighbors(0, 0);
    assert_eq!(en.len(), 1);
    assert!(en.contains(&(1, 1)));
}

#[test]
fn target_is_exact_mean() {
    let mut g = Grid::new(3);
    let catalog = vec![Lab::new(10, 20, 30), Lab::new(20, 40, 60), Lab::new(60, 90, 0)];
    g.set(0, 0, 0);
    g.set(0, 1, 1);
    g.set(1, 0, 2);
    let t = g.target_color(&catalog, 1, 1);
    assert_eq!(t, Lab::new(30, 50, 30));
    let one = g.target_color(&catalog, 2, 1);
    assert_eq!(one, Lab::new(60, 90, 0));
}

#[test]
fn frontier_upsert_remove_query() {
    let mut f = Frontier::new();
    assert_eq!(f.len(), 0);
    f.upsert((1, 2), Lab::new(10, 20, 30));
    f.upsert((3, 4), Lab::new(5, 5, 5));
    assert_eq!(f.len(), 2);
    assert_eq!(f.get((1, 2)), Some(Lab::new(10, 20, 30)));
    f.upsert((1, 2), Lab::new(7, 7, 7));
    assert_eq!(f.len(), 2);
    assert_eq!(f.get((1, 2)), Some(Lab::new(7, 7, 7)));
    f.remove((3, 4));
    assert_eq!(f.len(), 1);
    assert_eq!(f.get((3, 4)), None);
    f.remove((9, 9));
    assert_eq!(f.len(), 1);
    f.upsert((0, 0), Lab::new(0, 0, 0));
    f.upsert((5, 5), Lab::new(100, 100, 100));
    assert_eq!(f.query_nearest(&Lab::new(99, 99, 99)), (5, 5));
    assert_eq!(f.query_nearest(&Lab::new(1, 1, 1)), (0, 0));
}

#[test]
fn rgb_channels() {
    assert_eq!(rgb_of_index(0), (0, 0, 0));
    assert_eq!(rgb_of_index(0xFFFFFF), (255, 255, 255));
    assert_eq!(rgb_of_index(0x123456), (0x12, 0x34, 0x56));
    assert_eq!(rgb_of_index(256), (0, 1, 0));
}

#[test]
fn order_is_permutation() {
    let mut v = shuffled_order(100);
    assert_eq!(v.len(), 100);
    v.sort();
    for (i, &x) in v.iter().enumerate() {
        assert_eq!(i, x);
    }
    assert_eq!(shuffled_order(0).len(), 0);
    assert_eq!(shuffled_order(1), vec![0]);
}

#[test]
fn cover_oracle() {
    assert!(check_exact_cover(&vec![2, 0, 1], 3));
    assert!(check_exact_cover(&vec![], 0));
    assert!(!check_exact_cover(&vec![0, 1], 3));
    assert!(!check_exact_cover(&vec![0, 1, 1], 3));
    assert!(!check_exact_cover(&vec![0, 1, 3], 3));
}

#[test]
fn neighbor_walk_order() {
    let g = Grid::new(3);
    assert_eq!(
        g.neighbors(1, 1),
        vec![(1, 2), (2, 1), (1, 0), (0, 1), (2, 2), (0, 0), (0, 2), (2, 0)]
    );
    assert_eq!(g.neighbors(0, 0), vec![(0, 1), (1, 0), (1, 1)]);
    let mut h = Grid::new(3);
    h.set(1, 2, 0);
    h.set(0, 1, 1);
    assert_eq!(h.empty_neighbors(1, 1), vec![(2, 1), (1, 0), (2, 2), (0, 0), (0, 2), (2, 0)]);
}
