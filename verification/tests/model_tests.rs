use wfc_rs::adjacency_builder::AdjacencyRulesBuilder;
use wfc_rs::adjacency_rules::AdjacencyRules;
use wfc_rs::direction::Direction;
use wfc_rs::error::WfcError;
use wfc_rs::grid::Grid;
use wfc_rs::image::Image;
use wfc_rs::mode::Mode;
use wfc_rs::model::Model;
use wfc_rs::vector2::Vector2;
use wfc_rs::wave_info::{mk_id_to_color, WaveInfo};

#[test]
fn overlap_counts_sum_to_the_window_count() {
    let mut img = Image::new(2, 2);
    img.set_color(Vector2 { x: 1, y: 0 }, [5, 5, 5]);
    img.set_color(Vector2 { x: 0, y: 1 }, [5, 5, 5]);
    let model = Model::overlap(&img, (1, 1), false).unwrap();
    assert_eq!(model.mode, Mode::Overlap);
    assert_eq!(model.tiles.len(), 2);
    // the repeated color occurs twice; black occurs twice as well
    let total: u64 = model.frequency_hints.iter().sum();
    assert_eq!(total, 4);
    assert!(model.frequency_hints.iter().all(|f| *f >= 1));
    assert_eq!(model.frequency_hints, vec![2, 2]);
}

#[test]
fn overlap_rejects_empty_inputs() {
    let img = Image::new(0, 3);
    assert!(matches!(
        Model::overlap(&img, (1, 1), false),
        Err(WfcError::Configuration)
    ));
    let img2 = Image::new(3, 3);
    assert!(matches!(
        Model::overlap(&img2, (0, 1), false),
        Err(WfcError::Configuration)
    ));
}

#[test]
fn tiled_requires_an_even_partition() {
    let img = Image::new(3, 2);
    assert!(matches!(
        Model::tiled(&img, (2, 1), false),
        Err(WfcError::Configuration)
    ));
    assert!(Model::tiled(&img, (3, 1), false).is_ok());
    assert!(Model::tiled(&img, (1, 2), false).is_ok());
}

#[test]
fn tiled_records_each_partitions_identifier() {
    let mut img = Image::new(2, 2);
    img.set_color(Vector2 { x: 1, y: 0 }, [1, 1, 1]);
    img.set_color(Vector2 { x: 0, y: 1 }, [2, 2, 2]);
    img.set_color(Vector2 { x: 1, y: 1 }, [3, 3, 3]);
    let model = Model::tiled(&img, (1, 1), false).unwrap();
    assert_eq!(model.mode, Mode::Tile);
    assert_eq!(model.tiles.len(), 4);
    assert_eq!(model.positions_width, 2);
    assert_eq!(model.positions_height, 2);
    assert_eq!(model.position_to_tile.len(), 4);
    for k in 0..4 {
        let id = model.position_to_tile[k];
        let expected = img.at(Vector2 {
            x: (k % 2) as i32,
            y: (k / 2) as i32,
        });
        assert_eq!(model.tiles[id].pixels, vec![expected]);
    }
}

#[test]
fn tiled_relation_follows_recorded_neighbors() {
    let mut img = Image::new(2, 2);
    img.set_color(Vector2 { x: 1, y: 0 }, [1, 1, 1]);
    img.set_color(Vector2 { x: 0, y: 1 }, [2, 2, 2]);
    img.set_color(Vector2 { x: 1, y: 1 }, [3, 3, 3]);
    let model = Model::tiled(&img, (1, 1), false).unwrap();
    let a = model.position_to_tile[0];
    let b = model.position_to_tile[1];
    let c = model.position_to_tile[2];
    let d = model.position_to_tile[3];
    let rules = AdjacencyRules::from_tile_model(&model);
    assert!(rules.valid_neighbors(a, b, Direction::RIGHT));
    assert!(rules.valid_neighbors(b, a, Direction::LEFT));
    assert!(rules.valid_neighbors(a, c, Direction::DOWN));
    assert!(rules.valid_neighbors(c, a, Direction::UP));
    assert!(rules.valid_neighbors(b, d, Direction::DOWN));
    // positions that never touch horizontally are not related that way
    assert!(!rules.valid_neighbors(a, d, Direction::RIGHT));
    assert!(!rules.valid_neighbors(a, b, Direction::DOWN));
}

#[test]
fn permuted_catalog_counts_all_variants() {
    let mut img = Image::new(2, 2);
    img.set_color(Vector2 { x: 1, y: 0 }, [1, 1, 1]);
    let model = Model::overlap(&img, (1, 1), true).unwrap();
    let total: u64 = model.frequency_hints.iter().sum();
    assert_eq!(total, 32);
    assert_eq!(model.tiles.len(), 2);
}

#[test]
fn grid_keeps_one_entry_per_coordinate() {
    let mut grid = Grid::new();
    grid.insert(Vector2 { x: 0, y: 0 }, [1, 1, 1]);
    grid.insert(Vector2 { x: 1, y: 0 }, [2, 2, 2]);
    grid.insert(Vector2 { x: 0, y: 0 }, [9, 9, 9]);
    assert_eq!(grid.pixels().len(), 2);
    assert_eq!(grid.get(Vector2 { x: 0, y: 0 }), Some(&[9, 9, 9]));
    assert_eq!(grid.get(Vector2 { x: 1, y: 0 }), Some(&[2, 2, 2]));
    assert_eq!(grid.get(Vector2 { x: 5, y: 5 }), None);
    assert_eq!(grid.for_each().len(), 2);
}

#[test]
fn wave_info_assigns_dense_identifiers_and_exact_counts() {
    let mut grid = Grid::new();
    grid.insert(Vector2 { x: 0, y: 0 }, [1, 1, 1]);
    grid.insert(Vector2 { x: 1, y: 0 }, [2, 2, 2]);
    grid.insert(Vector2 { x: 2, y: 0 }, [1, 1, 1]);
    let info = WaveInfo::init(&grid);
    assert_eq!(info.id_to_color, vec![[1, 1, 1], [2, 2, 2]]);
    assert_eq!(info.pixel_to_id, vec![0, 1, 0]);
    assert_eq!(info.id_frequency, vec![2, 1]);
    assert_eq!(info.color_to_id(&[2, 2, 2]), Some(1));
    assert_eq!(info.color_to_id(&[7, 7, 7]), None);
    assert_eq!(mk_id_to_color(&grid), vec![[1, 1, 1], [2, 2, 2]]);
}

#[test]
fn builder_tallies_each_observed_pair() {
    // two pixels side by side with distinct identifiers
    let builder = AdjacencyRulesBuilder {
        image_width: 2,
        image_height: 1,
        pixel_to_id: vec![0, 1],
    };
    let counts = builder.build();
    assert_eq!(counts.len(), 2);
    assert_eq!(counts[0][1][Direction::RIGHT.idx()], 1);
    assert_eq!(counts[1][0][Direction::LEFT.idx()], 1);
    assert_eq!(counts[0][1][Direction::LEFT.idx()], 0);
    assert_eq!(counts[0][0][Direction::RIGHT.idx()], 0);
    assert_eq!(counts[0][1][Direction::UP.idx()], 0);

    let neighbors = builder.get_neighbors(&Vector2 { x: 0, y: 0 });
    assert_eq!(neighbors, vec![(1, Direction::RIGHT)]);
}
