use firemark::cli::Position;
use firemark::placement::{anchor_position, qr_position, tile_layout, tile_origins, TileLayout};

#[test]
fn qr_anchors() {
    assert_eq!(qr_position(100, 80, 20, 10, Position::Center, 5), (40, 35));
    assert_eq!(qr_position(100, 80, 20, 10, Position::TopLeft, 5), (5, 5));
    assert_eq!(qr_position(100, 80, 20, 10, Position::TopRight, 5), (75, 5));
    assert_eq!(qr_position(100, 80, 20, 10, Position::BottomLeft, 5), (5, 65));
    assert_eq!(qr_position(100, 80, 20, 10, Position::BottomRight, 5), (75, 65));
}

#[test]
fn qr_tile_falls_back_to_center() {
    assert_eq!(
        qr_position(333, 211, 40, 40, Position::Tile, 7),
        qr_position(333, 211, 40, 40, Position::Center, 7)
    );
}

#[test]
fn center_rounds_toward_zero() {
    assert_eq!(qr_position(101, 81, 20, 10, Position::Center, 0), (40, 35));
    // A code wider than the canvas: -21 / 2 is -10, not -11.
    assert_eq!(qr_position(100, 100, 121, 10, Position::Center, 0), (-10, 45));
}

#[test]
fn anchor_positions() {
    assert_eq!(anchor_position(200, 100, 50, 20, Position::Center, 10), (75, 40));
    assert_eq!(anchor_position(200, 100, 50, 20, Position::TopRight, 10), (140, 10));
    assert_eq!(anchor_position(200, 100, 50, 20, Position::BottomLeft, 10), (10, 70));
    assert_eq!(anchor_position(200, 100, 50, 20, Position::Tile, 10), (0, 0));
}

#[test]
fn tile_layouts() {
    assert_eq!(
        tile_layout(100, 100, 30, 30, 10),
        TileLayout::Grid { step_x: 40, step_y: 40, jitter: 5 }
    );
    assert_eq!(
        tile_layout(1000, 1000, 100, 200, 80),
        TileLayout::Grid { step_x: 180, step_y: 280, jitter: 40 }
    );
    assert_eq!(
        tile_layout(1000, 1000, 20, 20, 0),
        TileLayout::Grid { step_x: 20, step_y: 20, jitter: 4 }
    );
    assert_eq!(tile_layout(50, 50, 60, 60, 10), TileLayout::Whole);
    // A spacing past i32::MAX wraps to -1, leaving a zero step.
    assert_eq!(tile_layout(100, 100, 1, 1, u32::MAX), TileLayout::Nothing);
}

#[test]
fn tile_grid_row_by_row() {
    let got = tile_origins(100, 90, 40, 40);
    let expected: Vec<(i32, i32)> = vec![
        (0, 0), (40, 0), (80, 0),
        (0, 40), (40, 40), (80, 40),
        (0, 80), (40, 80), (80, 80),
    ];
    assert_eq!(got, expected);
    assert!(tile_origins(0, 50, 10, 10).is_empty());
}
