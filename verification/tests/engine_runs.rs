use allrgb::color::{dist2, Lab};
use allrgb::catalog::shuffled_order;
use allrgb::engine::{check_exact_cover, place_all, Engine, EngineError};

#[test]
fn capacity_rejected() {
    let catalog = vec![Lab::new(0, 0, 0), Lab::new(1, 1, 1)];
    let order = vec![0usize, 1];
    let r = Engine::new(1, catalog, order);
    assert_eq!(r.err(), Some(EngineError::CapacityExceeded));
}

#[test]
fn single_seed() {
    let catalog = vec![Lab::new(3, 4, 5)];
    let mut e = Engine::new(1, catalog, vec![0]).unwrap();
    assert_eq!(e.placed_count(), 0);
    assert_eq!(e.total(), 1);
    let pos = e.step();
    assert_eq!(pos, (0, 0));
    assert_eq!(e.placed_count(), 1);
    assert_eq!(e.frontier_len(), 0);
    assert_eq!(e.grid_cell(0, 0), Some(0));
    let vals = e.values();
    assert_eq!(vals, vec![0]);
    assert!(check_exact_cover(&vals, 1));
}

#[test]
fn small_end_to_end() {
    let coords: [(u32, u32, u32); 9] = [
        (0, 0, 0),
        (1000, 0, 0),
        (0, 1000, 0),
        (0, 0, 1000),
        (1000, 1000, 0),
        (1000, 0, 1000),
        (0, 1000, 1000),
        (1000, 1000, 1000),
        (500, 500, 500),
    ];
    let catalog: Vec<Lab> = coords.iter().map(|&(l, a, b)| Lab::new(l, a, b)).collect();
    let order: Vec<usize> = (0..9).collect();
    let mut e = Engine::new(3, catalog.clone(), order).unwrap();

    // Seed: color 0 lands at the center without a query.
    let pos0 = e.step();
    assert_eq!(pos0, (1, 1));

    // After the seed the frontier is exactly the 8 remaining cells, each
    // wanting color 0's coordinate (its only filled neighbor).
    let mut frontier_cells = 0;
    for x in 0..3usize {
        for y in 0..3usize {
            if let Some(lab) = e.frontier_desired(x, y) {
                frontier_cells += 1;
                assert!((x, y) != (1, 1));
                assert_eq!(lab, catalog[0]);
            }
        }
    }
    assert_eq!(frontier_cells, 8);

    // Each later placement takes a frontier cell at minimal squared
    // distance from the color being placed.
    for i in 1..9usize {
        let target = catalog[i];
        let mut best: Option<u64> = None;
        let mut snapshot: Vec<Option<Lab>> = Vec::new();
        for k in 0..9usize {
            let lab = e.frontier_desired(k / 3, k % 3);
            if let Some(l) = lab {
                let d = dist2(&target, &l);
                best = Some(match best {
                    None => d,
                    Some(b) => {
                        if d < b {
                            d
                        } else {
                            b
                        }
                    },
                });
            }
            snapshot.push(lab);
        }
        let pos = e.step();
        let chosen = snapshot[pos.0 * 3 + pos.1].expect("the engine placed outside the frontier");
        assert_eq!(dist2(&target, &chosen), best.unwrap());
    }

    // All nine cells hold distinct indices 0 through 8.
    assert_eq!(e.placed_count(), 9);
    assert_eq!(e.frontier_len(), 0);
    let vals = e.values();
    assert_eq!(vals.len(), 9);
    assert!(check_exact_cover(&vals, 9));
}

#[test]
fn full_run_bijection() {
    let n = 16usize;
    let catalog: Vec<Lab> = (0..n)
        .map(|i| {
            Lab::new(
                ((i * 37) % 256) as u32 * 1000,
                ((i * 91) % 256) as u32 * 1000,
                ((i * 53) % 256) as u32 * 1000,
            )
        })
        .collect();
    let order = shuffled_order(n);
    let mut e = Engine::new(4, catalog, order).unwrap();
    e.run();
    let vals = e.values();
    assert_eq!(vals.len(), n);
    assert!(check_exact_cover(&vals, n));
}

#[test]
fn run_with_spare_capacity() {
    // More grid than catalog: every color still lands exactly once.
    let n = 5usize;
    let catalog: Vec<Lab> = (0..n).map(|i| Lab::new(i as u32 * 10, 0, 0)).collect();
    let order = shuffled_order(n);
    let mut e = Engine::new(3, catalog, order).unwrap();
    e.run();
    let mut found = vec![false; n];
    let mut filled = 0;
    for x in 0..3usize {
        for y in 0..3usize {
            if let Some(c) = e.grid_cell(x, y) {
                assert!(c < n);
                assert!(!found[c]);
                found[c] = true;
                filled += 1;
            }
        }
    }
    assert_eq!(filled, n);
}

#[test]
fn place_all_covers() {
    let n = 9usize;
    let catalog: Vec<Lab> = (0..n)
        .map(|i| Lab::new(i as u32 * 7, i as u32 * 3, i as u32))
        .collect();
    let vals = place_all(3, catalog, shuffled_order(n));
    assert_eq!(vals.len(), n);
    assert!(check_exact_cover(&vals, n));
}
