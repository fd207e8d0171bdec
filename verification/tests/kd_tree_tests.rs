use modtile::kd_tree::{
    construct_kd_tree, dist_sq, query_nearest_neighbor, sort_range_by_coord, DistCounter,
    KdError, SpatialTree,
};

fn build(mut points: Vec<Vec<u8>>) -> SpatialTree {
    construct_kd_tree(&mut points, 3).expect("a non-empty palette of RGB triples must build")
}

fn scan_min(palette: &[Vec<u8>], q: &Vec<u8>) -> u32 {
    let mut c = DistCounter::new();
    palette
        .iter()
        .map(|p| dist_sq(q, p, &mut c))
        .min()
        .expect("palette is non-empty")
}

fn query(tree: &SpatialTree, q: &Vec<u8>) -> (usize, u32) {
    let mut c = DistCounter::new();
    let root = tree.root();
    query_nearest_neighbor(q, tree, 3, root, &mut c).expect("dimensions agree")
}

#[test]
fn dist_sq_concrete_values() {
    let mut c = DistCounter::new();
    assert_eq!(dist_sq(&vec![0, 0, 0], &vec![0, 0, 0], &mut c), 0);
    assert_eq!(dist_sq(&vec![255, 0, 0], &vec![250, 10, 10], &mut c), 225);
    assert_eq!(dist_sq(&vec![10, 10, 10], &vec![0, 0, 0], &mut c), 300);
    assert_eq!(dist_sq(&vec![255, 255, 255], &vec![0, 0, 0], &mut c), 195075);
    assert_eq!(c.calls, 4);
}

#[test]
fn dist_sq_counts_every_invocation() {
    let mut c = DistCounter::new();
    let a = vec![1, 2, 3];
    let b = vec![4, 5, 6];
    for _ in 0..10 {
        dist_sq(&a, &b, &mut c);
    }
    assert_eq!(c.calls, 10);
}

#[test]
fn query_bumps_the_counter() {
    let tree = build(vec![vec![255, 0, 0], vec![0, 255, 0], vec![0, 0, 255]]);
    let mut c = DistCounter::new();
    let root = tree.root();
    query_nearest_neighbor(&vec![1, 2, 3], &tree, 3, root, &mut c).unwrap();
    assert!(c.calls > 0);
}

#[test]
fn concrete_five_color_palette() {
    let tree = build(vec![
        vec![255, 0, 0],
        vec![0, 255, 0],
        vec![0, 0, 255],
        vec![255, 255, 255],
        vec![0, 0, 0],
    ]);
    let (idx, d) = query(&tree, &vec![250, 10, 10]);
    assert_eq!(tree.nodes[idx].point, vec![255, 0, 0]);
    assert_eq!(d, 225);
    let (idx2, d2) = query(&tree, &vec![10, 10, 10]);
    assert_eq!(tree.nodes[idx2].point, vec![0, 0, 0]);
    assert_eq!(d2, 300);
}

#[test]
fn singleton_palette_answers_every_query() {
    let tree = build(vec![vec![7, 77, 177]]);
    for q in [
        vec![0, 0, 0],
        vec![255, 255, 255],
        vec![7, 77, 177],
        vec![255, 0, 128],
        vec![1, 200, 3],
    ] {
        let (idx, d) = query(&tree, &q);
        assert_eq!(tree.nodes[idx].point, vec![7, 77, 177]);
        let mut c = DistCounter::new();
        assert_eq!(d, dist_sq(&q, &vec![7, 77, 177], &mut c));
    }
}

#[test]
fn exact_match_returns_distance_zero() {
    let palette = vec![
        vec![12, 34, 56],
        vec![200, 100, 50],
        vec![0, 0, 0],
        vec![255, 255, 255],
        vec![90, 90, 90],
        vec![13, 34, 56],
        vec![128, 0, 255],
    ];
    let tree = build(palette.clone());
    for p in &palette {
        let (idx, d) = query(&tree, p);
        assert_eq!(d, 0, "query {:?} must match itself", p);
        assert_eq!(&tree.nodes[idx].point, p);
    }
}

#[test]
fn duplicate_points_match_by_coordinates() {
    let palette = vec![
        vec![10, 20, 30],
        vec![10, 20, 30],
        vec![10, 20, 30],
        vec![200, 200, 200],
    ];
    let tree = build(palette);
    let (idx, d) = query(&tree, &vec![11, 20, 30]);
    assert_eq!(d, 1);
    assert_eq!(tree.nodes[idx].point, vec![10, 20, 30]);
}

#[test]
fn empty_palette_is_rejected() {
    let mut points: Vec<Vec<u8>> = Vec::new();
    assert!(matches!(
        construct_kd_tree(&mut points, 3),
        Err(KdError::EmptyPalette)
    ));
}

#[test]
fn mismatched_point_is_rejected_at_build() {
    let mut points = vec![vec![1, 2, 3], vec![4, 5]];
    assert!(matches!(
        construct_kd_tree(&mut points, 3),
        Err(KdError::DimensionMismatch)
    ));
}

#[test]
fn mismatched_query_is_rejected() {
    let tree = build(vec![vec![1, 2, 3], vec![4, 5, 6]]);
    let mut c = DistCounter::new();
    let root = tree.root();
    assert_eq!(
        query_nearest_neighbor(&vec![1, 2], &tree, 3, root, &mut c),
        Err(KdError::DimensionMismatch)
    );
    assert_eq!(
        query_nearest_neighbor(&vec![1, 2, 3], &tree, 2, root, &mut c),
        Err(KdError::DimensionMismatch)
    );
}

#[test]
fn repeated_queries_are_deterministic() {
    let tree = build(vec![
        vec![3, 1, 4],
        vec![1, 5, 9],
        vec![2, 6, 5],
        vec![3, 5, 8],
        vec![97, 93, 23],
        vec![84, 62, 64],
    ]);
    let first = query(&tree, &vec![50, 50, 50]);
    for _ in 0..5 {
        assert_eq!(query(&tree, &vec![50, 50, 50]), first);
    }
}

struct Lcg(u64);

impl Lcg {
    fn next_byte(&mut self) -> u8 {
        self.0 = self
            .0
            .wrapping_mul(6364136223846793005)
            .wrapping_add(1442695040888963407);
        (self.0 >> 33) as u8
    }
}

#[test]
fn oracle_matches_exhaustive_scan() {
    let mut rng = Lcg(0x1234_5678_9abc_def0);
    for trial in 0..40 {
        let n = 1 + (rng.next_byte() as usize % 200);
        let palette: Vec<Vec<u8>> = (0..n)
            .map(|_| vec![rng.next_byte(), rng.next_byte(), rng.next_byte()])
            .collect();
        let tree = build(palette.clone());
        let queries = if trial == 0 { 1000 } else { 50 };
        for _ in 0..queries {
            let q = vec![rng.next_byte(), rng.next_byte(), rng.next_byte()];
            let (idx, d) = query(&tree, &q);
            let found = &tree.nodes[idx].point;
            assert!(
                palette.iter().any(|p| p == found),
                "result {:?} must be a palette member",
                found
            );
            let best = scan_min(&palette, &q);
            assert_eq!(
                d, best,
                "palette of {} points, query {:?}: got {}, scan says {}",
                n, q, d, best
            );
        }
    }
}

#[test]
fn tree_traversal_is_consistent() {
    let tree = build(vec![
        vec![10, 0, 0],
        vec![20, 0, 0],
        vec![30, 0, 0],
        vec![40, 0, 0],
        vec![50, 0, 0],
        vec![60, 0, 0],
        vec![70, 0, 0],
    ]);
    assert_eq!(tree.root(), 0);
    assert_eq!(tree.parent_of(0), None);
    for i in 1..tree.nodes.len() {
        let p = tree.parent_of(i).expect("only the root lacks a parent");
        let (lo, hi) = tree.children_of(p);
        assert!(lo == Some(i) || hi == Some(i));
        match tree.sibling_of(i) {
            Some(s) => {
                assert_ne!(s, i);
                assert_eq!(tree.parent_of(s), Some(p));
            }
            None => {
                assert!(lo == Some(i) && hi.is_none() || hi == Some(i) && lo.is_none());
            }
        }
    }
    let total = tree.nodes.len();
    assert_eq!(total, 7);
}

#[test]
fn sort_range_orders_a_subrange_only() {
    let mut v = vec![
        vec![9, 0, 0],
        vec![5, 1, 0],
        vec![3, 2, 0],
        vec![7, 3, 0],
        vec![1, 4, 0],
    ];
    sort_range_by_coord(&mut v, 1, 4, 0);
    assert_eq!(
        v,
        vec![
            vec![9, 0, 0],
            vec![3, 2, 0],
            vec![5, 1, 0],
            vec![7, 3, 0],
            vec![1, 4, 0],
        ]
    );
    sort_range_by_coord(&mut v, 0, 5, 1);
    assert_eq!(
        v,
        vec![
            vec![9, 0, 0],
            vec![5, 1, 0],
            vec![3, 2, 0],
            vec![7, 3, 0],
            vec![1, 4, 0],
        ]
    );
}

#[test]
fn other_dimension_counts_work_too() {
    // one-dimensional palette
    let mut pts = vec![vec![200], vec![10], vec![90], vec![60], vec![250]];
    let tree = construct_kd_tree(&mut pts, 1).unwrap();
    let mut c = DistCounter::new();
    let (idx, d) = query_nearest_neighbor(&vec![72], &tree, 1, tree.root(), &mut c).unwrap();
    assert_eq!(tree.nodes[idx].point, vec![60]);
    assert_eq!(d, 144);
    // two-dimensional palette, exhaustively checked
    let mut rng = Lcg(77);
    let palette: Vec<Vec<u8>> = (0..60)
        .map(|_| vec![rng.next_byte(), rng.next_byte()])
        .collect();
    let mut work = palette.clone();
    let tree2 = construct_kd_tree(&mut work, 2).unwrap();
    for _ in 0..200 {
        let q = vec![rng.next_byte(), rng.next_byte()];
        let (_, got) = query_nearest_neighbor(&q, &tree2, 2, tree2.root(), &mut c).unwrap();
        let want = palette
            .iter()
            .map(|p| {
                let dx = p[0] as i32 - q[0] as i32;
                let dy = p[1] as i32 - q[1] as i32;
                (dx * dx + dy * dy) as u32
            })
            .min()
            .unwrap();
        assert_eq!(got, want);
    }
}
