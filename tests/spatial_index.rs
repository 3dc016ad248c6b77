use las_transfer::point::{squared_distance, Position};
use las_transfer::spatial_index::{KdError, KdTree, Neighbor};

fn pos(x: i32, y: i32, z: i32) -> Position {
    Position { x, y, z }
}

fn brute_force(points: &[Position], q: &Position) -> Vec<Neighbor> {
    let mut all: Vec<Neighbor> = points
        .iter()
        .enumerate()
        .map(|(i, p)| Neighbor { distance: squared_distance(q, p), index: i })
        .collect();
    all.sort_by(|a, b| (a.distance, a.index).cmp(&(b.distance, b.index)));
    all
}

fn pseudo_random_points(n: usize, seed: u64) -> Vec<Position> {
    let mut state = seed;
    let mut next = || {
        state = state.wrapping_mul(6364136223846793005).wrapping_add(1442695040888963407);
        ((state >> 33) % 2_000_001) as i32 - 1_000_000
    };
    (0..n).map(|_| pos(next(), next(), next())).collect()
}

#[test]
fn empty_tree_fails() {
    let tree: KdTree<u32> = KdTree::new();
    assert_eq!(tree.len(), 0);
    assert_eq!(tree.nearest(&pos(0, 0, 0), 1), Err(KdError::EmptyTree));
}

#[test]
fn squared_distance_exact() {
    assert_eq!(squared_distance(&pos(1, 2, 3), &pos(4, 6, 3)), 25);
    let far = squared_distance(&pos(i32::MIN, i32::MIN, i32::MIN), &pos(i32::MAX, i32::MAX, i32::MAX));
    assert_eq!(far, 3 * (u32::MAX as u128) * (u32::MAX as u128));
}

#[test]
fn nearest_one_matches_brute_force() {
    for (n, seed) in [(1usize, 7u64), (10, 11), (1000, 13)] {
        let points = pseudo_random_points(n, seed);
        let mut tree = KdTree::new();
        for (i, p) in points.iter().enumerate() {
            tree.insert(*p, i);
        }
        assert_eq!(tree.len(), n);
        for q in pseudo_random_points(50, seed + 100) {
            let got = tree.nearest(&q, 1).unwrap();
            let want = brute_force(&points, &q);
            assert_eq!(got.len(), 1);
            assert_eq!(got[0], want[0]);
            assert_eq!(*tree.payload(got[0].index), got[0].index);
        }
    }
}

#[test]
fn k_nearest_sorted_and_matches_brute_force() {
    let points = pseudo_random_points(300, 21);
    let mut tree = KdTree::new();
    for p in points.iter() {
        tree.insert(*p, ());
    }
    for q in pseudo_random_points(20, 22) {
        let got = tree.nearest(&q, 7).unwrap();
        let want = brute_force(&points, &q);
        assert_eq!(got, want[..7].to_vec());
        for w in got.windows(2) {
            assert!(w[0].distance <= w[1].distance);
        }
    }
}

#[test]
fn k_larger_than_size_returns_all() {
    let mut tree = KdTree::new();
    tree.insert(pos(5, 0, 0), 'a');
    tree.insert(pos(1, 0, 0), 'b');
    let got = tree.nearest(&pos(0, 0, 0), 5).unwrap();
    assert_eq!(
        got,
        vec![Neighbor { distance: 1, index: 1 }, Neighbor { distance: 25, index: 0 }]
    );
}

#[test]
fn tie_goes_to_first_inserted() {
    let mut tree = KdTree::new();
    let p = pos(3, -4, 5);
    tree.insert(p, "A");
    tree.insert(p, "B");
    let got = tree.nearest(&p, 1).unwrap();
    assert_eq!(got, vec![Neighbor { distance: 0, index: 0 }]);
    assert_eq!(*tree.payload(got[0].index), "A");
}

#[test]
fn equal_distance_tie_across_subtrees() {
    let mut tree = KdTree::new();
    tree.insert(pos(0, 0, 0), 0);
    tree.insert(pos(2, 0, 0), 1);
    tree.insert(pos(-2, 0, 0), 2);
    let got = tree.nearest(&pos(0, 0, 0), 3).unwrap();
    let idx: Vec<usize> = got.iter().map(|n| n.index).collect();
    assert_eq!(idx, vec![0, 1, 2]);
    let got = tree.nearest(&pos(1, 0, 0), 1).unwrap();
    assert_eq!(got, vec![Neighbor { distance: 1, index: 0 }]);
}
