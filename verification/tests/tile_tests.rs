use wfc_rs::direction::Direction;
use wfc_rs::mode::Mode;
use wfc_rs::tile::{rotate_180, rotate_270, rotate_90, Tile};

#[test]
fn test_rotate_270() {
    let pixels = vec![
        [0, 0, 0],
        [1, 1, 1],
        [2, 2, 2],
        [3, 3, 3],
        [4, 4, 4],
        [5, 5, 5],
        [6, 6, 6],
        [7, 7, 7],
        [8, 8, 8],
    ];

    let expected = vec![
        [2, 2, 2],
        [5, 5, 5],
        [8, 8, 8],
        [1, 1, 1],
        [4, 4, 4],
        [7, 7, 7],
        [0, 0, 0],
        [3, 3, 3],
        [6, 6, 6],
    ];

    assert_eq!(
        rotate_270(Tile {
            width: 3,
            height: 3,
            pixels
        })
        .pixels,
        expected
    );
}

#[test]
fn test_rotate_180() {
    let pixels = vec![
        [0, 0, 0],
        [1, 1, 1],
        [2, 2, 2],
        [3, 3, 3],
        [4, 4, 4],
        [5, 5, 5],
        [6, 6, 6],
        [7, 7, 7],
        [8, 8, 8],
    ];
    let expected = vec![
        [8, 8, 8],
        [7, 7, 7],
        [6, 6, 6],
        [5, 5, 5],
        [4, 4, 4],
        [3, 3, 3],
        [2, 2, 2],
        [1, 1, 1],
        [0, 0, 0],
    ];
    assert_eq!(
        rotate_180(Tile {
            width: 3,
            height: 3,
            pixels
        })
        .pixels,
        expected
    );
}

#[test]
fn test_rotate_90() {
    let pixels = vec![
        [0, 0, 0],
        [1, 1, 1],
        [2, 2, 2],
        [3, 3, 3],
        [4, 4, 4],
        [5, 5, 5],
        [6, 6, 6],
        [7, 7, 7],
        [8, 8, 8],
    ];
    let expected = vec![
        [6, 6, 6],
        [3, 3, 3],
        [0, 0, 0],
        [7, 7, 7],
        [4, 4, 4],
        [1, 1, 1],
        [8, 8, 8],
        [5, 5, 5],
        [2, 2, 2],
    ];
    assert_eq!(
        rotate_90(Tile {
            width: 3,
            height: 3,
            pixels
        })
        .pixels,
        expected
    );
}

#[test]
fn test_compare_tile() {
    let black: [u8; 3] = [0, 0, 0];
    let white: [u8; 3] = [255, 255, 255];
    let a = Tile {
        width: 3,
        height: 3,
        pixels: vec![
            black, white, white, //
            black, white, white, //
            black, white, white,
        ],
    };
    let b = Tile {
        width: 3,
        height: 3,
        pixels: vec![
            black, black, black, //
            black, white, white, //
            black, white, white,
        ],
    };

    assert!(a.overlaps(&b, Direction::UP, Mode::Tile));
    assert!(!a.overlaps(&b, Direction::DOWN, Mode::Tile));
    assert!(!a.overlaps(&b, Direction::LEFT, Mode::Tile));
    assert!(!a.overlaps(&b, Direction::RIGHT, Mode::Tile));
}

#[test]
fn test_compare_up() {
    let black: [u8; 3] = [0, 0, 0];
    let white: [u8; 3] = [255, 255, 255];
    let a = Tile {
        width: 3,
        height: 3,
        pixels: vec![
            black, white, white, //
            black, white, white, //
            black, white, white,
        ],
    };
    let b = Tile {
        width: 3,
        height: 3,
        pixels: vec![
            black, black, black, //
            black, white, white, //
            black, white, white,
        ],
    };

    assert!(a.overlaps(&b, Direction::UP, Mode::Overlap))
}

#[test]
fn test_compare_down() {
    let black: [u8; 3] = [0, 0, 0];
    let white: [u8; 3] = [255, 255, 255];
    let a = Tile {
        width: 3,
        height: 3,
        pixels: vec![
            black, white, white, //
            black, white, white, //
            black, white, white,
        ],
    };
    let b = Tile {
        width: 3,
        height: 3,
        pixels: vec![
            black, white, white, //
            black, white, white, //
            black, black, black,
        ],
    };

    assert!(a.overlaps(&b, Direction::DOWN, Mode::Overlap))
}

#[test]
fn test_compare_left() {
    let black: [u8; 3] = [0, 0, 0];
    let white: [u8; 3] = [255, 255, 255];
    let a = Tile {
        width: 3,
        height: 3,
        pixels: vec![
            black, white, white, //
            black, white, white, //
            black, white, white,
        ],
    };
    let b = Tile {
        width: 3,
        height: 3,
        pixels: vec![
            white, black, white, //
            white, black, white, //
            white, black, white,
        ],
    };

    assert!(a.overlaps(&b, Direction::LEFT, Mode::Overlap))
}

#[test]
fn test_compare_right() {
    let black: [u8; 3] = [0, 0, 0];
    let white: [u8; 3] = [255, 255, 255];
    let a = Tile {
        width: 3,
        height: 3,
        pixels: vec![
            black, white, white, black, white, white, black, white, white,
        ],
    };
    let b = Tile {
        width: 3,
        height: 3,
        pixels: vec![
            white, white, black, white, white, black, white, white, black,
        ],
    };

    assert!(a.overlaps(&b, Direction::RIGHT, Mode::Overlap))
}

#[test]
fn permute_holds_all_eight_variants() {
    let t = Tile {
        width: 2,
        height: 2,
        pixels: vec![[0, 0, 0], [1, 1, 1], [2, 2, 2], [3, 3, 3]],
    };
    let vs = t.permute();
    assert_eq!(vs.len(), 8);
    assert_eq!(vs[0].pixels, t.pixels);
    assert_eq!(vs[1].pixels, vec![[2, 2, 2], [0, 0, 0], [3, 3, 3], [1, 1, 1]]);
    assert_eq!(vs[2].pixels, vec![[3, 3, 3], [2, 2, 2], [1, 1, 1], [0, 0, 0]]);
    assert_eq!(vs[3].pixels, vec![[1, 1, 1], [3, 3, 3], [0, 0, 0], [2, 2, 2]]);
    assert_eq!(vs[4].pixels, vec![[1, 1, 1], [0, 0, 0], [3, 3, 3], [2, 2, 2]]);
    assert_eq!(vs[5].pixels, vec![[2, 2, 2], [3, 3, 3], [0, 0, 0], [1, 1, 1]]);
}

#[test]
fn overlap_rule_is_symmetric_under_flip() {
    let a = Tile {
        width: 2,
        height: 2,
        pixels: vec![[0, 0, 0], [1, 1, 1], [2, 2, 2], [3, 3, 3]],
    };
    let b = Tile {
        width: 2,
        height: 2,
        pixels: vec![[2, 2, 2], [3, 3, 3], [9, 9, 9], [8, 8, 8]],
    };
    for (d, flipped) in [
        (Direction::UP, Direction::DOWN),
        (Direction::DOWN, Direction::UP),
        (Direction::LEFT, Direction::RIGHT),
        (Direction::RIGHT, Direction::LEFT),
    ] {
        assert_eq!(
            a.overlaps(&b, d, Mode::Overlap),
            b.overlaps(&a, flipped, Mode::Overlap)
        );
        assert_eq!(
            a.overlaps(&b, d, Mode::Tile),
            b.overlaps(&a, flipped, Mode::Tile)
        );
    }
    assert!(a.overlaps(&b, Direction::DOWN, Mode::Overlap));
    assert!(!a.overlaps(&b, Direction::UP, Mode::Overlap));
}
