use tile_influence::influence::{
    influence_matrix, influence_vector, normalize_to_sum_one, raw_weights_for, InfluenceVector,
};
use tile_influence::tile::Tile;

fn shares(v: &InfluenceVector) -> Vec<f64> {
    v.numerators
        .iter()
        .map(|n| *n as f64 / v.denominator as f64)
        .collect()
}

fn grid_of(rows: usize, cols: usize, t: Tile) -> Vec<Vec<Tile>> {
    vec![vec![t; cols]; rows]
}

#[test]
fn single_road_tile() {
    let map = vec![vec![Tile::from_string("T").unwrap()]];
    let m = influence_matrix(&map).unwrap();
    assert_eq!(m.len(), 1);
    assert_eq!(m[0].numerators, vec![130]);
    assert_eq!(m[0].denominator, 130);
    assert_eq!(shares(&m[0]), vec![1.0]);
}

#[test]
fn empty_beside_mountain() {
    let map = vec![vec![
        Tile::from_string("").unwrap(),
        Tile::from_string("U").unwrap(),
    ]];
    assert_eq!(raw_weights_for(&map, (0, 0)), vec![100, 0]);
    assert_eq!(raw_weights_for(&map, (0, 1)), vec![9, 0]);
    let m = influence_matrix(&map).unwrap();
    assert_eq!(m.len(), 2);
    assert_eq!(shares(&m[0]), vec![1.0, 0.0]);
    assert_eq!(shares(&m[1]), vec![1.0, 0.0]);
}

#[test]
fn weights_by_kind_and_distance() {
    let map = vec![
        vec![Tile::City(1), Tile::Swamp, Tile::Road],
        vec![Tile::Empty, Tile::River, Tile::City(3)],
    ];
    // From (0, 0): self 200; Swamp 3 - 1; Road 13 - 4; Empty 10 - 1;
    // River 0; City(3) 60 - 5.
    assert_eq!(raw_weights_for(&map, (0, 0)), vec![200, 2, 9, 9, 0, 55]);
    // From (1, 1), a river: self 0; each neighbour less its squared distance.
    assert_eq!(raw_weights_for(&map, (1, 1)), vec![18, 2, 11, 9, 0, 59]);
    let v = influence_vector(&map, (1, 1)).unwrap();
    assert_eq!(v.denominator, 99);
    assert_eq!(v.numerators, vec![18, 2, 11, 9, 0, 59]);
}

#[test]
fn every_vector_sums_to_one() {
    let map = vec![
        vec![Tile::City(1), Tile::Swamp, Tile::Road, Tile::Mountain],
        vec![Tile::Empty, Tile::River, Tile::City(3), Tile::Swamp],
        vec![Tile::Mountain, Tile::Mountain, Tile::Empty, Tile::Road],
    ];
    let m = influence_matrix(&map).unwrap();
    assert_eq!(m.len(), 12);
    for v in &m {
        assert_eq!(v.numerators.len(), 12);
        assert!(v.denominator > 0);
        assert_eq!(v.numerators.iter().sum::<u128>(), v.denominator);
        let total: f64 = shares(v).iter().sum();
        assert!((total - 1.0).abs() < 1e-5);
        assert!(shares(v).iter().all(|s| *s >= 0.0));
    }
}

#[test]
fn all_zero_weights_share_equally() {
    let map = grid_of(1, 2, Tile::Mountain);
    let v = influence_vector(&map, (0, 0)).unwrap();
    assert_eq!(v.numerators, vec![1, 1]);
    assert_eq!(v.denominator, 2);
    assert_eq!(shares(&v), vec![0.5, 0.5]);
}

#[test]
fn empty_grid_self_weight_dominates() {
    let map = grid_of(3, 3, Tile::Empty);
    let m = influence_matrix(&map).unwrap();
    for (i, v) in m.iter().enumerate() {
        for (j, n) in v.numerators.iter().enumerate() {
            if i != j {
                assert!(*n < v.numerators[i]);
            }
        }
    }
    assert_eq!(m[4].numerators, vec![8, 9, 8, 9, 100, 9, 8, 9, 8]);
}

#[test]
fn pull_falls_with_distance() {
    let map = grid_of(1, 5, Tile::Empty);
    assert_eq!(raw_weights_for(&map, (0, 0)), vec![100, 9, 6, 1, 0]);
    let map = grid_of(1, 5, Tile::Road);
    assert_eq!(raw_weights_for(&map, (0, 4)), vec![0, 4, 9, 12, 130]);
}

#[test]
fn empty_grid_has_empty_matrix() {
    let map: Vec<Vec<Tile>> = vec![];
    assert_eq!(influence_matrix(&map).unwrap().len(), 0);
}

#[test]
fn normalization_overflow_and_exact_values() {
    assert!(normalize_to_sum_one(vec![u128::MAX, 1]).is_none());
    let v = normalize_to_sum_one(vec![3, 0, 1]).unwrap();
    assert_eq!(v.numerators, vec![3, 0, 1]);
    assert_eq!(v.denominator, 4);
    let v = normalize_to_sum_one(vec![0, 0, 0]).unwrap();
    assert_eq!(v.numerators, vec![1, 1, 1]);
    assert_eq!(v.denominator, 3);
}

#[test]
fn large_cities_do_not_overflow() {
    let map = vec![vec![Tile::City(usize::MAX), Tile::City(usize::MAX)]];
    let v = influence_vector(&map, (0, 0)).unwrap();
    let h = 20 * (usize::MAX as u128);
    assert_eq!(v.numerators, vec![10 * h, h - 1]);
    assert_eq!(v.denominator, 11 * h - 1);
}
