use wfc_rs::adjacency_rules::AdjacencyRules;
use wfc_rs::direction::{all_directions, Direction};
use wfc_rs::error::WfcError;
use wfc_rs::image::Image;
use wfc_rs::mode::Mode;
use wfc_rs::model::Model;
use wfc_rs::tile::Tile;
use wfc_rs::vector2::Vector2;
use wfc_rs::wave_function::WaveFunction;

#[test]
fn single_color_source_solves_any_grid() {
    let img = Image::new(3, 3);
    let model = Model::overlap(&img, (1, 1), false).unwrap();
    assert_eq!(model.tiles.len(), 1);
    assert_eq!(model.frequency_hints, vec![9]);

    let rules = AdjacencyRules::from_overlap_model(&model);
    for d in all_directions() {
        assert!(rules.valid_neighbors(0, 0, d));
    }

    let mut wf = WaveFunction::with_seed((4, 3), rules, model, false, 7);
    let out = wf.run().unwrap();
    assert_eq!(out.len(), 12);
    assert!(out.iter().all(|id| *id == 0));
}

#[test]
fn two_color_overlap_relation_matches_hand_computation() {
    let mut img = Image::new(2, 1);
    img.set_color(Vector2 { x: 1, y: 0 }, [255, 255, 255]);
    let model = Model::overlap(&img, (1, 1), false).unwrap();
    assert_eq!(model.tiles.len(), 2);
    assert_eq!(model.frequency_hints, vec![1, 1]);

    let rules = AdjacencyRules::from_overlap_model(&model);
    // With a one-pixel window the shared overlap region is empty in every
    // direction, so each comparison holds vacuously: the relation permits
    // every ordered pair everywhere, and in particular each color beside
    // the other horizontally, with nothing restricting up or down.
    for a in 0..2 {
        for b in 0..2 {
            for d in all_directions() {
                assert!(rules.valid_neighbors(a, b, d));
            }
        }
    }
}

#[test]
fn identical_seeds_reproduce_identical_assignments() {
    let mut img = Image::new(3, 2);
    img.set_color(Vector2 { x: 1, y: 0 }, [10, 20, 30]);
    img.set_color(Vector2 { x: 2, y: 1 }, [40, 50, 60]);

    let model_a = Model::overlap(&img, (1, 1), false).unwrap();
    let rules_a = AdjacencyRules::from_overlap_model(&model_a);
    let mut wf_a = WaveFunction::with_seed((5, 4), rules_a, model_a, false, 123456);
    let out_a = wf_a.run().unwrap();

    let model_b = Model::overlap(&img, (1, 1), false).unwrap();
    let rules_b = AdjacencyRules::from_overlap_model(&model_b);
    let mut wf_b = WaveFunction::with_seed((5, 4), rules_b, model_b, false, 123456);
    let out_b = wf_b.run().unwrap();

    assert_eq!(out_a, out_b);
}

#[test]
fn solved_assignment_satisfies_the_relation() {
    let mut img = Image::new(2, 2);
    img.set_color(Vector2 { x: 1, y: 0 }, [1, 1, 1]);
    img.set_color(Vector2 { x: 0, y: 1 }, [2, 2, 2]);
    let model = Model::tiled(&img, (1, 1), false).unwrap();
    let rules = AdjacencyRules::from_tile_model(&model);
    let check = AdjacencyRules::from_tile_model(&Model::tiled(&img, (1, 1), false).unwrap());

    let w = 4usize;
    let h = 4usize;
    let mut wf = WaveFunction::with_seed((w, h), rules, model, false, 99);
    match wf.run() {
        Ok(out) => {
            for y in 0..h {
                for x in 0..w {
                    if x + 1 < w {
                        assert!(check.valid_neighbors(
                            out[y * w + x],
                            out[y * w + x + 1],
                            Direction::RIGHT
                        ));
                    }
                    if y + 1 < h {
                        assert!(check.valid_neighbors(
                            out[y * w + x],
                            out[(y + 1) * w + x],
                            Direction::DOWN
                        ));
                    }
                }
            }
        }
        Err(e) => {
            assert_eq!(e, WfcError::Contradiction);
        }
    }
}

#[test]
fn zero_output_dimension_is_a_configuration_error() {
    let img = Image::new(2, 2);
    let model = Model::overlap(&img, (1, 1), false).unwrap();
    let rules = AdjacencyRules::from_overlap_model(&model);
    let mut wf = WaveFunction::with_seed((0, 5), rules, model, false, 1);
    assert_eq!(wf.run(), Err(WfcError::Configuration));
}

#[test]
fn an_all_false_relation_contradicts_immediately() {
    let tiles = vec![
        Tile {
            width: 1,
            height: 1,
            pixels: vec![[0, 0, 0]],
        },
        Tile {
            width: 1,
            height: 1,
            pixels: vec![[9, 9, 9]],
        },
    ];
    let model = Model {
        mode: Mode::Overlap,
        tile_dimensions: (1, 1),
        tiles,
        frequency_hints: vec![1, 1],
        positions_width: 0,
        positions_height: 0,
        position_to_tile: vec![],
    };
    let rules = AdjacencyRules::new(2);
    let mut wf = WaveFunction::with_seed((2, 1), rules, model, false, 5);
    assert_eq!(wf.run(), Err(WfcError::Contradiction));
}

#[test]
fn zero_weights_surface_as_a_sampling_error() {
    let tiles = vec![Tile {
        width: 1,
        height: 1,
        pixels: vec![[0, 0, 0]],
    }];
    let model = Model {
        mode: Mode::Overlap,
        tile_dimensions: (1, 1),
        tiles,
        frequency_hints: vec![0],
        positions_width: 0,
        positions_height: 0,
        position_to_tile: vec![],
    };
    let mut rules = AdjacencyRules::new(1);
    rules.allow(0, 0, Direction::UP);
    rules.allow(0, 0, Direction::DOWN);
    rules.allow(0, 0, Direction::LEFT);
    rules.allow(0, 0, Direction::RIGHT);
    let mut wf = WaveFunction::with_seed((2, 2), rules, model, false, 5);
    assert_eq!(wf.run(), Err(WfcError::Sampling));
}

#[test]
fn rendered_solution_shows_each_tiles_corner_sample() {
    let img = Image::new(2, 2);
    let model = Model::overlap(&img, (1, 1), false).unwrap();
    let rules = AdjacencyRules::from_overlap_model(&model);
    let mut wf = WaveFunction::with_seed((3, 3), rules, model, false, 11);
    wf.run().unwrap();
    let rendered = wf.state_to_image();
    assert_eq!(rendered.width, 3);
    assert_eq!(rendered.height, 3);
    for y in 0..3 {
        for x in 0..3 {
            assert_eq!(rendered.at(Vector2 { x, y }), [0, 0, 0]);
        }
    }
}

#[test]
fn snapshots_accumulate_when_animation_is_requested() {
    let img = Image::new(2, 2);
    let model = Model::overlap(&img, (1, 1), false).unwrap();
    let rules = AdjacencyRules::from_overlap_model(&model);
    let mut wf = WaveFunction::with_seed((4, 4), rules, model, true, 3);
    wf.run().unwrap();
    assert!(!wf.snapshots.is_empty());
}

#[test]
fn deterministic_generator_reproduces_its_stream() {
    let mut s1: u64 = 42;
    let mut s2: u64 = 42;
    let a = wfc_rs::rng::rng_next(&mut s1);
    let b = wfc_rs::rng::rng_next(&mut s2);
    assert_eq!(a, b);
    assert_eq!(s1, s2);
    let c = wfc_rs::rng::rng_next(&mut s1);
    assert_ne!(a, c);
}

#[test]
fn solve_runs_the_whole_pipeline() {
    let mut img = Image::new(2, 2);
    img.set_color(Vector2 { x: 1, y: 1 }, [8, 8, 8]);
    let wf = wfc_rs::wave_function::solve(
        &img,
        (1, 1),
        wfc_rs::parse_method::ParseMethod::Overlap,
        false,
        (3, 2),
        false,
        2024,
    )
    .unwrap();
    assert_eq!(wf.cells_to_collapse, 0);
    assert_eq!(wf.dimensions, (3, 2));
    assert_eq!(wf.model.tiles.len(), 2);

    assert!(matches!(
        wfc_rs::wave_function::solve(
            &img,
            (0, 1),
            wfc_rs::parse_method::ParseMethod::Tiled,
            false,
            (3, 2),
            false,
            2024,
        ),
        Err(WfcError::Configuration)
    ));
}

#[test]
fn entropy_seeded_engine_still_solves() {
    let img = Image::new(2, 2);
    let model = Model::overlap(&img, (1, 1), false).unwrap();
    let rules = AdjacencyRules::from_overlap_model(&model);
    let mut wf = WaveFunction::new((3, 3), rules, model, false);
    let out = wf.run().unwrap();
    assert_eq!(out, vec![0; 9]);
}

#[test]
fn unresolved_cells_render_as_the_blend_of_their_candidates() {
    let mut img = Image::new(2, 1);
    img.set_color(Vector2 { x: 1, y: 0 }, [8, 8, 8]);
    let model = Model::overlap(&img, (1, 1), false).unwrap();
    let rules = AdjacencyRules::from_overlap_model(&model);
    // not yet run: every cell still holds both candidates
    let wf = WaveFunction::with_seed((2, 2), rules, model, false, 1);
    let rendered = wf.state_to_image();
    for y in 0..2 {
        for x in 0..2 {
            assert_eq!(rendered.at(Vector2 { x, y }), [4, 4, 4]);
        }
    }
}
