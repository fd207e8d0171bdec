use modtile::modtile::{build_color_vec, tile_grid, AllColors, RGB, TileColor};

fn sample_palette() -> AllColors {
    AllColors {
        name: "Test".to_string(),
        url: "none".to_string(),
        description: "Test".to_string(),
        colors: vec![
            TileColor {
                rgb: RGB(0, 0, 0),
                name: "black".to_string(),
                number: "1".to_string(),
            },
            TileColor {
                rgb: RGB(255, 0, 0),
                name: "red".to_string(),
                number: "2".to_string(),
            },
            TileColor {
                rgb: RGB(0, 255, 0),
                name: "green".to_string(),
                number: "3".to_string(),
            },
            TileColor {
                rgb: RGB(0, 0, 255),
                name: "blue".to_string(),
                number: "4".to_string(),
            },
        ],
    }
}

#[test]
fn build_color_vec_keeps_order_and_coordinates() {
    let ac = sample_palette();
    let colors = build_color_vec(&ac);
    assert_eq!(
        colors,
        vec![
            vec![0, 0, 0],
            vec![255, 0, 0],
            vec![0, 255, 0],
            vec![0, 0, 255],
        ]
    );
}

#[test]
fn rgb_equality_is_by_coordinates() {
    assert_eq!(RGB(1, 2, 3), RGB(1, 2, 3));
    assert_ne!(RGB(1, 2, 3), RGB(3, 2, 1));
    let copy = RGB(9, 8, 7);
    let other = copy;
    assert_eq!(copy, other);
}

#[test]
fn palette_feeds_the_tree() {
    let ac = sample_palette();
    let mut colors = build_color_vec(&ac);
    let tree = modtile::kd_tree::construct_kd_tree(&mut colors, 3).unwrap();
    let mut c = modtile::kd_tree::DistCounter::new();
    let root = tree.root();
    let (idx, d) =
        modtile::kd_tree::query_nearest_neighbor(&vec![250, 5, 5], &tree, 3, root, &mut c)
            .unwrap();
    assert_eq!(tree.nodes[idx].point, vec![255, 0, 0]);
    assert_eq!(d, 25 + 25 + 25);
}

#[test]
fn tile_grid_lays_colors_row_major() {
    let colors = vec![
        RGB(1, 0, 0),
        RGB(2, 0, 0),
        RGB(3, 0, 0),
        RGB(4, 0, 0),
        RGB(5, 0, 0),
    ];
    let grid = tile_grid(&colors, 3, 2);
    assert_eq!(
        grid,
        vec![
            vec![RGB(1, 0, 0), RGB(2, 0, 0), RGB(3, 0, 0)],
            vec![RGB(4, 0, 0), RGB(5, 0, 0), RGB(0, 0, 0)],
        ]
    );
}
