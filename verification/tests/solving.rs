use std::collections::HashSet;

use calendar_puzzle::active_board::ActiveBoard;
use calendar_puzzle::common::{
    c, AllTime, Coordinate, CustomBoard, Month, SolveError, Tile, WeekDay,
};
use calendar_puzzle::custom_boards::gt::GTBoard;
use calendar_puzzle::custom_boards::nova_scotia::NovaScotiaCalendarBoard;
use calendar_puzzle::solver::{run, solve};

fn open_cells(board: &ActiveBoard) -> Vec<Coordinate> {
    let mut cells = Vec::new();
    let mut cursor = board.get_next_open_coor(None);
    while let Some(coor) = cursor {
        cells.push(coor);
        cursor = board.get_next_open_coor(Some(&coor));
    }
    cells
}

fn cell_set(tiles: &[Tile]) -> HashSet<Coordinate> {
    let mut set = HashSet::new();
    for tile in tiles {
        for coor in tile {
            set.insert(*coor);
        }
    }
    set
}

fn ns_open_for(month: Month, day: u32, week_day: WeekDay) -> HashSet<Coordinate> {
    let board = NovaScotiaCalendarBoard {};
    let pit = AllTime::new(month, day, week_day);
    let blocked: HashSet<Coordinate> =
        board.point_in_time(&pit).expect("valid date").into_iter().collect();
    board.coors().into_iter().filter(|coor| !blocked.contains(coor)).collect()
}

#[test]
fn nova_scotia_board_has_43_cells_and_8_tiles() {
    let board = NovaScotiaCalendarBoard {};
    assert_eq!(board.coors().len(), 43);
    let tiles = board.tiles();
    assert_eq!(tiles.len(), 8);
    let total: usize = tiles.iter().map(|t| t.len()).sum();
    assert_eq!(total, 41);
}

#[test]
fn nova_scotia_blocks_month_and_day_cells() {
    let board = NovaScotiaCalendarBoard {};
    let pit = AllTime::new(Month::June, 15, WeekDay::Sunday);
    let blocked = board.point_in_time(&pit).expect("valid date");
    assert_eq!(blocked, vec![c(5, 0), c(0, 4)]);
}

#[test]
fn nova_scotia_rejects_out_of_range_day() {
    let board = NovaScotiaCalendarBoard {};
    let pit = AllTime::new(Month::June, 45, WeekDay::Sunday);
    assert!(board.point_in_time(&pit).is_none());
    assert_eq!(board.point_in_time(&AllTime::new(Month::June, 0, WeekDay::Sunday)), None);
}

#[test]
fn gt_board_blocks_month_day_and_week_day_cells() {
    let board = GTBoard {};
    let pit = AllTime::new(Month::January, 8, WeekDay::Wednesday);
    let blocked = board.point_in_time(&pit).expect("valid date");
    assert_eq!(blocked, vec![c(0, 0), c(0, 3), c(6, 6)]);
    assert!(board.point_in_time(&AllTime::new(Month::January, 31, WeekDay::Monday)).is_none());
}

#[test]
fn fresh_board_exposes_every_remaining_cell_in_scan_order() {
    let board = NovaScotiaCalendarBoard {};
    let pit = AllTime::new(Month::June, 15, WeekDay::Sunday);
    let active = ActiveBoard::from_custom(&board, &pit).expect("valid date");
    let cells = open_cells(&active);
    assert_eq!(cells.len(), 41);
    // scan order is column-major: x first, then y
    assert_eq!(cells[0], c(0, 0));
    assert_eq!(cells[1], c(0, 1));
    // the day cell (0, 4) is blocked, so (0, 3) is followed by (0, 5)
    assert_eq!(cells[3], c(0, 3));
    assert_eq!(cells[4], c(0, 5));
    let as_set: HashSet<Coordinate> = cells.iter().copied().collect();
    assert_eq!(as_set, ns_open_for(Month::June, 15, WeekDay::Sunday));
}

#[test]
fn from_custom_rejects_invalid_point_in_time() {
    let board = NovaScotiaCalendarBoard {};
    let pit = AllTime::new(Month::June, 45, WeekDay::Sunday);
    match ActiveBoard::from_custom(&board, &pit) {
        Err(SolveError::InvalidPointInTime) => {},
        _ => panic!("expected the invalid-input outcome"),
    }
}

#[test]
fn smallest_unplaced_tile_size_survives_the_shuffle() {
    let board = NovaScotiaCalendarBoard {};
    let pit = AllTime::new(Month::June, 15, WeekDay::Sunday);
    let active = ActiveBoard::from_custom(&board, &pit).expect("valid date");
    // the catalogue holds one 6-cell tile and seven 5-cell tiles, in
    // whatever order the shuffle produced
    assert_eq!(active.smallest_unplaced_tile_size(), 5);
    let ts = active.get_next_tile_set().expect("nothing placed yet");
    assert!(ts.key() < 8);
    assert_eq!(ts.tiles.len(), 8);
}

#[test]
fn place_remove_restores_the_grid_exactly() {
    let board = NovaScotiaCalendarBoard {};
    let pit = AllTime::new(Month::June, 15, WeekDay::Sunday);
    let mut active = ActiveBoard::from_custom(&board, &pit).expect("valid date");
    let before = open_cells(&active);
    let key = active.get_next_tile_set().expect("nothing placed yet").key();

    let tile: Tile = vec![c(1, 0), c(2, 0), c(3, 0)];
    assert!(active.place_tile(key, &tile));

    // placement exclusivity: the covered cells are no longer open, and an
    // overlapping placement fails without changing the grid
    let during = open_cells(&active);
    assert_eq!(during.len(), before.len() - 3);
    assert!(!during.contains(&c(1, 0)));
    assert!(!during.contains(&c(2, 0)));
    assert!(!during.contains(&c(3, 0)));

    let key2 = active.get_next_tile_set().expect("seven sets remain").key();
    assert_ne!(key2, key);
    let overlapping: Tile = vec![c(3, 0), c(4, 0)];
    assert!(!active.place_tile(key2, &overlapping));
    assert_eq!(open_cells(&active), during);

    // out-of-frame placements fail as well
    assert!(!active.place_tile(key2, &vec![c(-1, 0)]));
    assert_eq!(open_cells(&active), during);

    // removing the placed tile restores the open cells bit for bit
    active.remove_tile(key, &tile);
    assert_eq!(open_cells(&active), before);
}

#[test]
fn find_islands_partitions_the_open_cells() {
    let board = NovaScotiaCalendarBoard {};
    let pit = AllTime::new(Month::June, 15, WeekDay::Sunday);
    let active = ActiveBoard::from_custom(&board, &pit).expect("valid date");
    let islands = active.find_islands();
    let mut seen: HashSet<Coordinate> = HashSet::new();
    let mut total = 0;
    for island in &islands {
        assert!(!island.is_empty());
        for coor in island {
            // no cell appears in two islands or twice in one
            assert!(seen.insert(*coor));
        }
        total += island.len();
    }
    assert_eq!(total, 41);
    assert_eq!(seen, ns_open_for(Month::June, 15, WeekDay::Sunday));
}

#[test]
fn walled_off_corner_is_reported_and_prunes_the_search() {
    let board = NovaScotiaCalendarBoard {};
    // June 1 blocks (5, 0) and (0, 2), leaving the bottom-left row free
    let pit = AllTime::new(Month::June, 1, WeekDay::Sunday);
    let mut active = ActiveBoard::from_custom(&board, &pit).expect("valid date");
    let key = active.get_next_tile_set().expect("nothing placed yet").key();
    // closing this 2x3 block separates (0,6), (1,6), (2,6) from the rest
    let wall: Tile = vec![c(0, 4), c(1, 4), c(2, 4), c(0, 5), c(1, 5), c(2, 5)];
    assert!(active.place_tile(key, &wall));

    let islands = active.find_islands();
    let corner: Vec<Coordinate> = vec![c(0, 6), c(1, 6), c(2, 6)];
    let small = islands
        .iter()
        .find(|island| island.len() == 3)
        .expect("the walled-off corner must be its own island");
    let small_set: HashSet<Coordinate> = small.iter().copied().collect();
    assert_eq!(small_set, corner.iter().copied().collect());

    // a three-cell island cannot hold any remaining tile (smallest is 5),
    // so the search reports failure without exploring placements
    assert!(active.smallest_unplaced_tile_size() >= 5);
    let mut solution: Vec<Tile> = Vec::new();
    assert!(!solve(&mut active, &mut solution));
    assert!(solution.is_empty());
}

#[test]
fn june_fifteenth_is_tiled_exactly() {
    let board = NovaScotiaCalendarBoard {};
    let pit = AllTime::new(Month::June, 15, WeekDay::Sunday);
    let solution = run(&pit, &board).expect("this date has a solution");
    assert_eq!(solution.len(), 8);

    let expected_open = ns_open_for(Month::June, 15, WeekDay::Sunday);
    let covered = cell_set(&solution);
    // no overlaps: the cell count across tiles equals the union's size
    let total: usize = solution.iter().map(|t| t.len()).sum();
    assert_eq!(total, covered.len());
    // total coverage: exactly the initially open cells
    assert_eq!(covered, expected_open);
}

#[test]
fn repeated_solves_cover_the_same_cells() {
    let board = NovaScotiaCalendarBoard {};
    let pit = AllTime::new(Month::January, 1, WeekDay::Monday);
    let expected_open = ns_open_for(Month::January, 1, WeekDay::Monday);
    for _ in 0..3 {
        let solution = run(&pit, &board).expect("this date has a solution");
        assert_eq!(cell_set(&solution), expected_open);
    }
}

#[test]
fn run_distinguishes_invalid_input_from_no_solution() {
    let board = NovaScotiaCalendarBoard {};
    let pit = AllTime::new(Month::June, 45, WeekDay::Sunday);
    assert_eq!(run(&pit, &board).unwrap_err(), SolveError::InvalidPointInTime);
}

#[test]
fn gt_board_solves_a_matching_date() {
    let board = GTBoard {};
    // June 15 on a Sunday blocks two on-board cells, leaving 41 open
    // cells for the catalogue's 41 cells of tiles
    let pit = AllTime::new(Month::June, 15, WeekDay::Sunday);
    let blocked: HashSet<Coordinate> =
        board.point_in_time(&pit).expect("valid date").into_iter().collect();
    let expected_open: HashSet<Coordinate> =
        board.coors().into_iter().filter(|coor| !blocked.contains(coor)).collect();
    assert_eq!(expected_open.len(), 41);

    let solution = run(&pit, &board).expect("this date has a solution");
    assert_eq!(solution.len(), 9);
    let covered = cell_set(&solution);
    let total: usize = solution.iter().map(|t| t.len()).sum();
    assert_eq!(total, covered.len());
    assert_eq!(covered, expected_open);
}

#[test]
fn day_thirty_one_is_valid_only_on_the_calendar_board() {
    let ns = NovaScotiaCalendarBoard {};
    let gt = GTBoard {};
    let pit = AllTime::new(Month::January, 31, WeekDay::Friday);
    // the calendar board maps day 31 to its last day cell
    assert_eq!(ns.point_in_time(&pit).expect("valid date"), vec![c(0, 0), c(2, 6)]);
    // the tetromino board's calendar ends at day 30
    assert!(gt.point_in_time(&pit).is_none());
    assert_eq!(run(&pit, &gt).unwrap_err(), SolveError::InvalidPointInTime);
}

#[test]
fn board_names_are_stable() {
    assert_eq!(NovaScotiaCalendarBoard {}.name(), "Nova Scotia Calendar Board");
    assert_eq!(GTBoard {}.name(), "Generic 'Tetromino' Board");
}
