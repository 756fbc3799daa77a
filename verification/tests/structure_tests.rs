use wfc_rs::cell_state::CellState;
use wfc_rs::color::Color;
use wfc_rs::color_type::ColorType;
use wfc_rs::direction::Direction;
use wfc_rs::error::WfcError;
use wfc_rs::helpers::get_neighbors;
use wfc_rs::image::{get_position, Image};
use wfc_rs::unique_stack::UniqueStack;
use wfc_rs::vector2::Vector2;

#[test]
fn test_get_neighbors() {
    let image_width = 3;
    let image_height = 3;

    let cases = vec![
        (
            Vector2 { x: 0, y: 0 },
            vec![
                (Vector2 { x: 1, y: 0 }, Direction::RIGHT),
                (Vector2 { x: 0, y: 1 }, Direction::DOWN),
            ],
        ),
        (
            Vector2 { x: 1, y: 0 },
            vec![
                (Vector2 { x: 0, y: 0 }, Direction::LEFT),
                (Vector2 { x: 2, y: 0 }, Direction::RIGHT),
                (Vector2 { x: 1, y: 1 }, Direction::DOWN),
            ],
        ),
        (
            Vector2 { x: 2, y: 0 },
            vec![
                (Vector2 { x: 1, y: 0 }, Direction::LEFT),
                (Vector2 { x: 2, y: 1 }, Direction::DOWN),
            ],
        ),
        (
            Vector2 { x: 0, y: 1 },
            vec![
                (Vector2 { x: 0, y: 0 }, Direction::UP),
                (Vector2 { x: 1, y: 1 }, Direction::RIGHT),
                (Vector2 { x: 0, y: 2 }, Direction::DOWN),
            ],
        ),
        (
            Vector2 { x: 1, y: 1 },
            vec![
                (Vector2 { x: 1, y: 0 }, Direction::UP),
                (Vector2 { x: 0, y: 1 }, Direction::LEFT),
                (Vector2 { x: 2, y: 1 }, Direction::RIGHT),
                (Vector2 { x: 1, y: 2 }, Direction::DOWN),
            ],
        ),
        (
            Vector2 { x: 2, y: 1 },
            vec![
                (Vector2 { x: 2, y: 0 }, Direction::UP),
                (Vector2 { x: 1, y: 1 }, Direction::LEFT),
                (Vector2 { x: 2, y: 2 }, Direction::DOWN),
            ],
        ),
        (
            Vector2 { x: 0, y: 2 },
            vec![
                (Vector2 { x: 0, y: 1 }, Direction::UP),
                (Vector2 { x: 1, y: 2 }, Direction::RIGHT),
            ],
        ),
        (
            Vector2 { x: 1, y: 2 },
            vec![
                (Vector2 { x: 1, y: 1 }, Direction::UP),
                (Vector2 { x: 0, y: 2 }, Direction::LEFT),
                (Vector2 { x: 2, y: 2 }, Direction::RIGHT),
            ],
        ),
        (
            Vector2 { x: 2, y: 2 },
            vec![
                (Vector2 { x: 2, y: 1 }, Direction::UP),
                (Vector2 { x: 1, y: 2 }, Direction::LEFT),
            ],
        ),
    ];

    for (pos, expected) in cases {
        assert_eq!(get_neighbors((image_width, image_height), &pos), expected)
    }
}

#[test]
fn test_unique_stack_from() {
    let mut us = UniqueStack::from([1, 2, 3, 4]);
    assert_eq!(us.pop(), Some(4));
    assert_eq!(us.pop(), Some(3));
    assert_eq!(us.pop(), Some(2));
    assert_eq!(us.pop(), Some(1));
}

#[test]
fn test_unique_stack_push_pop() {
    let mut us = UniqueStack::new();
    us.push(1);
    us.push(1);
    us.push(1);
    us.push(1);
    assert_eq!(us.pop(), Some(1));
    assert_eq!(us.pop(), None);
}

#[test]
fn pushing_a_queued_coordinate_twice_pops_it_once() {
    let mut us = UniqueStack::new();
    us.push(7);
    us.push(7);
    assert_eq!(us.pop(), Some(7));
    assert_eq!(us.pop(), None);
    assert!(us.is_empty());
}

#[test]
fn cell_state_resolves_and_shrinks() {
    let mut cell = CellState {
        choices: vec![1, 2, 3],
        state: None,
    };
    assert!(!cell.is_collapsed());
    assert_eq!(cell.get_choices(), vec![1, 2, 3]);
    cell.remove_choice(&2);
    assert_eq!(cell.get_choices(), vec![1, 3]);
    cell.remove_choice(&9);
    assert_eq!(cell.get_choices(), vec![1, 3]);
    let resolved = CellState {
        choices: vec![],
        state: Some(5),
    };
    assert!(resolved.is_collapsed());
    assert_eq!(resolved.get_choices(), vec![5]);
}

#[test]
fn direction_index_and_flip() {
    assert_eq!(Direction::UP.idx(), 0);
    assert_eq!(Direction::DOWN.idx(), 1);
    assert_eq!(Direction::LEFT.idx(), 2);
    assert_eq!(Direction::RIGHT.idx(), 3);
    assert_eq!(Direction::UP.flip(), Direction::DOWN);
    assert_eq!(Direction::LEFT.flip(), Direction::RIGHT);
}

#[test]
fn vector_steps_in_each_direction() {
    let p = Vector2 { x: 2, y: 5 };
    assert_eq!(p.in_direction(Direction::UP), Vector2 { x: 2, y: 4 });
    assert_eq!(p.in_direction(Direction::DOWN), Vector2 { x: 2, y: 6 });
    assert_eq!(p.in_direction(Direction::LEFT), Vector2 { x: 1, y: 5 });
    assert_eq!(p.in_direction(Direction::RIGHT), Vector2 { x: 3, y: 5 });
}

#[test]
fn color_blend_is_channelwise_half_sum() {
    let a: [u8; 3] = [2, 4, 6];
    let b: [u8; 3] = [4, 6, 9];
    assert_eq!(a.blend(&b), [3, 5, 7]);
    let white: [u8; 3] = [255, 255, 255];
    assert_eq!(white.blend(&white), [255, 255, 255]);
}

#[test]
fn color_type_byte_widths() {
    assert_eq!(ColorType::RGB.bytes_per_color(), 3);
    assert_eq!(ColorType::RGBA.bytes_per_color(), 4);
}

#[test]
fn image_stores_and_reads_colors() {
    let mut img = Image::new(2, 2);
    assert_eq!(img.at(Vector2 { x: 0, y: 0 }), [0, 0, 0]);
    img.set_color(Vector2 { x: 1, y: 0 }, [9, 8, 7]);
    assert_eq!(img.at(Vector2 { x: 1, y: 0 }), [9, 8, 7]);
    assert_eq!(img.at(Vector2 { x: 0, y: 1 }), [0, 0, 0]);
    assert_eq!(get_position(1, 1, 4, 3), 15);
}

#[test]
fn error_messages_name_their_kind() {
    assert!(WfcError::Configuration.message().contains("configuration"));
    assert!(WfcError::Contradiction.message().contains("contradiction"));
    assert!(WfcError::Sampling.message().contains("sampling"));
}
