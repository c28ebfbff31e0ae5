use calendar_puzzle::common::{c, Coordinate, Month, Tile, WeekDay};
use calendar_puzzle::tile_helper::{generate_orientations, TileHelper};

fn tromino() -> Tile {
    vec![c(0, 0), c(1, 0), c(0, 1)]
}

#[test]
fn calc_offset_moves_anchor_onto_origin() {
    let tile = vec![c(2, 3), c(3, 3)];
    let origin = c(5, 1);
    let offset = TileHelper::calc_offset(&tile, &origin);
    assert_eq!(offset, c(3, -2));
}

#[test]
fn translate_shifts_every_cell() {
    let mut tile = tromino();
    TileHelper::translate(&mut tile, &c(4, 2));
    assert_eq!(tile, vec![c(4, 2), c(5, 2), c(4, 3)]);
}

#[test]
fn rotate_quarter_turn_about_anchor() {
    let mut tile = tromino();
    TileHelper::rotate(&mut tile);
    assert_eq!(tile, vec![c(0, 0), c(0, 1), c(-1, 0)]);
}

#[test]
fn rotate_four_times_restores_shape() {
    let mut tile = tromino();
    for _ in 0..4 {
        TileHelper::rotate(&mut tile);
    }
    assert_eq!(tile, tromino());
}

#[test]
fn flip_mirrors_about_anchor() {
    let mut tile = tromino();
    TileHelper::flip(&mut tile);
    assert_eq!(tile, vec![c(0, 0), c(-1, 0), c(0, 1)]);
}

#[test]
fn flip_twice_restores_shape() {
    let mut tile = vec![c(1, 1), c(2, 1), c(3, 2), c(1, 3)];
    TileHelper::flip(&mut tile);
    TileHelper::flip(&mut tile);
    assert_eq!(tile, vec![c(1, 1), c(2, 1), c(3, 2), c(1, 3)]);
}

#[test]
fn is_within_board_accepts_frame_and_rejects_outside() {
    assert!(TileHelper::is_within_board(&vec![c(0, 0), c(15, 15)]));
    assert!(!TileHelper::is_within_board(&vec![c(-1, 0)]));
    assert!(!TileHelper::is_within_board(&vec![c(0, 16)]));
    assert!(TileHelper::is_within_board(&Vec::new()));
}

#[test]
fn orientations_are_the_eight_expected_transforms() {
    let orientations = generate_orientations(&tromino());
    let expected: Vec<Tile> = vec![
        vec![c(0, 0), c(1, 0), c(0, 1)],
        vec![c(0, 0), c(0, 1), c(-1, 0)],
        vec![c(0, 0), c(-1, 0), c(0, -1)],
        vec![c(0, 0), c(0, -1), c(1, 0)],
        vec![c(0, 0), c(-1, 0), c(0, 1)],
        vec![c(0, 0), c(0, -1), c(-1, 0)],
        vec![c(0, 0), c(1, 0), c(0, -1)],
        vec![c(0, 0), c(0, 1), c(1, 0)],
    ];
    assert_eq!(orientations, expected);
}

#[test]
fn orientations_share_anchor_and_cell_count() {
    let base = vec![c(3, 4), c(4, 4), c(5, 4), c(5, 5), c(3, 3)];
    let orientations = generate_orientations(&base);
    assert_eq!(orientations.len(), 8);
    assert_eq!(orientations[0], base);
    for o in &orientations {
        assert_eq!(o.len(), base.len());
        assert_eq!(o[0], base[0]);
    }
}

#[test]
fn symmetric_tile_orientations_may_repeat() {
    // a square is symmetric, so several of its eight orientations coincide;
    // duplicates are allowed and the count stays eight
    let square = vec![c(0, 0), c(1, 0), c(0, 1), c(1, 1)];
    let orientations = generate_orientations(&square);
    assert_eq!(orientations.len(), 8);
    for o in &orientations {
        assert_eq!(o.len(), 4);
        assert_eq!(o[0], c(0, 0));
    }
}

#[test]
fn month_from_u32_maps_the_calendar() {
    assert_eq!(Month::from_u32(1), Some(Month::January));
    assert_eq!(Month::from_u32(6), Some(Month::June));
    assert_eq!(Month::from_u32(12), Some(Month::December));
    assert_eq!(Month::from_u32(0), None);
    assert_eq!(Month::from_u32(13), None);
}

#[test]
fn week_day_from_u32_starts_at_sunday() {
    assert_eq!(WeekDay::from_u32(0), Some(WeekDay::Sunday));
    assert_eq!(WeekDay::from_u32(3), Some(WeekDay::Wednesday));
    assert_eq!(WeekDay::from_u32(6), Some(WeekDay::Saturday));
    assert_eq!(WeekDay::from_u32(7), None);
}

#[test]
fn coordinate_constructor_and_equality() {
    let a = c(4, -2);
    assert_eq!(a, Coordinate { x: 4, y: -2 });
    assert_ne!(a, c(-2, 4));
}
