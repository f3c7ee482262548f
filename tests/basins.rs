use pj_euler::basins::{basin_size, is_low_point, largest_basins_product, neighbors};

fn example() -> Vec<Vec<u32>> {
    ["2199943210", "3987894921", "9856789892", "8767896789", "9899965678"]
        .iter()
        .map(|l| l.chars().map(|c| c.to_digit(10).unwrap()).collect())
        .collect()
}

#[test]
fn neighbours_of_cells() {
    let g = example();
    assert_eq!(neighbors(&g, 0, 0), vec![(1, 0), (0, 1)]);
    assert_eq!(neighbors(&g, 2, 3), vec![(1, 3), (3, 3), (2, 2), (2, 4)]);
    assert_eq!(neighbors(&g, 4, 9), vec![(3, 9), (4, 8)]);
}

#[test]
fn low_points() {
    let g = example();
    assert!(is_low_point(&g, 0, 1));
    assert!(is_low_point(&g, 0, 9));
    assert!(is_low_point(&g, 2, 2));
    assert!(is_low_point(&g, 4, 6));
    assert!(!is_low_point(&g, 0, 0));
}

#[test]
fn basin_sizes() {
    let g = example();
    assert_eq!(basin_size(&g, 0, 1), 3);
    assert_eq!(basin_size(&g, 0, 9), 9);
    assert_eq!(basin_size(&g, 2, 2), 14);
    assert_eq!(basin_size(&g, 4, 6), 9);
    assert_eq!(basin_size(&g, 0, 2), 0);
}

#[test]
fn three_largest_basins() {
    assert_eq!(largest_basins_product(&example()), Some(1134));
    assert_eq!(largest_basins_product(&vec![vec![5]]), Some(1));
    assert_eq!(largest_basins_product(&vec![vec![1, 9, 2]]), Some(1));
}
