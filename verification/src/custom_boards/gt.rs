//! A generic tetromino-style calendar board: months, days and weekdays each
//! block one cell, and the tile catalogue is made of small rectangles,
//! lines and bends.

use vstd::prelude::*;

use crate::common::{
    c, catalog_wf, coord_in_frame, spec_c, tile_cells, tile_distinct, tile_in_frame, AllTime,
    Coordinate, CustomBoard, Month, Tile, WeekDay,
};
use crate::active_board::{connected, lemma_chain_connected};
use crate::common::{adjacent, chain_connected, has_earlier_neighbor};

verus! {

/// The board's tile catalogue.
pub open spec fn gt_tiles() -> Seq<Seq<Coordinate>> {
    seq![
        seq![spec_c(0, 0), spec_c(1, 0), spec_c(2, 0), spec_c(0, 1), spec_c(1, 1), spec_c(2, 1)],
        seq![spec_c(0, 0), spec_c(1, 0), spec_c(2, 0), spec_c(0, 1), spec_c(2, 1)],
        seq![spec_c(0, 0), spec_c(1, 0), spec_c(2, 0), spec_c(0, 1), spec_c(0, 2)],
        seq![spec_c(0, 0), spec_c(1, 0), spec_c(2, 0), spec_c(0, 1), spec_c(1, 1)],
        seq![spec_c(0, 0), spec_c(1, 0), spec_c(2, 0), spec_c(0, 1)],
        seq![spec_c(0, 0), spec_c(1, 0), spec_c(2, 0), spec_c(3, 0)],
        seq![spec_c(0, 0), spec_c(1, 0), spec_c(2, 0), spec_c(1, 1)],
        seq![spec_c(0, 0), spec_c(1, 0), spec_c(1, 1), spec_c(2, 1)],
        seq![spec_c(0, 0), spec_c(1, 0), spec_c(0, 1), spec_c(1, 1)],
    ]
}

/// The board's cells.
pub open spec fn gt_coors() -> Seq<Coordinate> {
    seq![
        spec_c(0, 0), spec_c(1, 0), spec_c(2, 0), spec_c(3, 0), spec_c(4, 0), spec_c(5, 0),
        spec_c(0, 1), spec_c(1, 1), spec_c(2, 1), spec_c(3, 1), spec_c(4, 1), spec_c(5, 1),
        spec_c(0, 2), spec_c(1, 2), spec_c(2, 2), spec_c(3, 2), spec_c(4, 2), spec_c(5, 2),
        spec_c(6, 2),
        spec_c(0, 3), spec_c(1, 3), spec_c(2, 3), spec_c(3, 3), spec_c(4, 3), spec_c(5, 3),
        spec_c(6, 3),
        spec_c(0, 4), spec_c(1, 4), spec_c(2, 4), spec_c(3, 4), spec_c(4, 4), spec_c(5, 4),
        spec_c(6, 4),
        spec_c(0, 5), spec_c(1, 5), spec_c(2, 5), spec_c(3, 5), spec_c(4, 5), spec_c(5, 5),
        spec_c(6, 5),
        spec_c(4, 6), spec_c(5, 6), spec_c(6, 6),
    ]
}

/// The cell blocked for a month.
pub open spec fn gt_month_cell(m: Month) -> Coordinate {
    match m {
        Month::January => spec_c(0, 0),
        Month::February => spec_c(1, 0),
        Month::March => spec_c(2, 0),
        Month::April => spec_c(3, 0),
        Month::May => spec_c(4, 0),
        Month::June => spec_c(5, 0),
        Month::July => spec_c(0, 1),
        Month::August => spec_c(1, 1),
        Month::September => spec_c(2, 1),
        Month::October => spec_c(3, 1),
        Month::November => spec_c(4, 1),
        Month::December => spec_c(5, 1),
    }
}

/// The cell blocked for a day of the month in `1..=30`.
pub open spec fn gt_day_cell(d: u32) -> Coordinate {
    if d <= 7 {
        spec_c((d - 1) as i32, 2)
    } else if d <= 14 {
        spec_c((d - 8) as i32, 3)
    } else if d <= 21 {
        spec_c((d - 15) as i32, 4)
    } else if d <= 28 {
        spec_c((d - 22) as i32, 5)
    } else {
        spec_c((d - 29) as i32, 6)
    }
}

/// The cell blocked for a weekday.
pub open spec fn gt_week_day_cell(w: WeekDay) -> Coordinate {
    match w {
        WeekDay::Sunday => spec_c(3, 6),
        WeekDay::Monday => spec_c(4, 6),
        WeekDay::Tuesday => spec_c(5, 6),
        WeekDay::Wednesday => spec_c(6, 6),
        WeekDay::Thursday => spec_c(4, 7),
        WeekDay::Friday => spec_c(5, 7),
        WeekDay::Saturday => spec_c(6, 7),
    }
}

/// The blocked cells for a point in time: the month's, the day's and the
/// weekday's cell, defined for days `1..=30`.
pub open spec fn gt_blocked(pit: AllTime) -> Option<Seq<Coordinate>> {
    if 1 <= pit.spec_day_of_month() <= 30 {
        Some(
            seq![
                gt_month_cell(pit.spec_month()),
                gt_day_cell(pit.spec_day_of_month()),
                gt_week_day_cell(pit.spec_week_day()),
            ],
        )
    } else {
        None
    }
}

/// The generic tetromino board.
pub struct GTBoard {}

impl CustomBoard for GTBoard {
    open spec fn spec_tiles(&self) -> Seq<Seq<Coordinate>> {
        gt_tiles()
    }

    open spec fn spec_coors(&self) -> Seq<Coordinate> {
        gt_coors()
    }

    open spec fn spec_blocked(&self, pit: AllTime) -> Option<Seq<Coordinate>> {
        gt_blocked(pit)
    }

    fn name(&self) -> String {
        "Generic 'Tetromino' Board".to_string()
    }

    fn tiles(&self) -> (r: Vec<Tile>) {
        let r: Vec<Tile> = vec![
            vec![c(0, 0), c(1, 0), c(2, 0), c(0, 1), c(1, 1), c(2, 1)],  // big rectangle
            vec![c(0, 0), c(1, 0), c(2, 0), c(0, 1), c(2, 1)],  // horseshoe
            vec![c(0, 0), c(1, 0), c(2, 0), c(0, 1), c(0, 2)],  // angle bracket
            vec![c(0, 0), c(1, 0), c(2, 0), c(0, 1), c(1, 1)],  // chipped rectangle
            vec![c(0, 0), c(1, 0), c(2, 0), c(0, 1)],  // littler L
            vec![c(0, 0), c(1, 0), c(2, 0), c(3, 0)],  // line
            vec![c(0, 0), c(1, 0), c(2, 0), c(1, 1)],  // 3-way intersection
            vec![c(0, 0), c(1, 0), c(1, 1), c(2, 1)],  // little zag
            vec![c(0, 0), c(1, 0), c(0, 1), c(1, 1)],  // square
        ];
        proof {
            broadcast use {
                crate::common::lemma_tiles_deep_view_len,
                crate::common::lemma_tiles_deep_view_index,
            };

            assert(r@[0]@ =~= gt_tiles()[0]);
            assert(r@[1]@ =~= gt_tiles()[1]);
            assert(r@[2]@ =~= gt_tiles()[2]);
            assert(r@[3]@ =~= gt_tiles()[3]);
            assert(r@[4]@ =~= gt_tiles()[4]);
            assert(r@[5]@ =~= gt_tiles()[5]);
            assert(r@[6]@ =~= gt_tiles()[6]);
            assert(r@[7]@ =~= gt_tiles()[7]);
            assert(r@[8]@ =~= gt_tiles()[8]);
            assert forall|k: int| 0 <= k < 9 implies r.deep_view()[k] == gt_tiles()[k] by {
                assert(r.deep_view()[k] == r@[k]@);
            }
            assert(r.deep_view() =~= gt_tiles());
            assert forall|k: int| 0 <= k < gt_tiles().len() implies {
                &&& (#[trigger] gt_tiles()[k]).len() >= 1
                &&& tile_distinct(gt_tiles()[k])
                &&& tile_in_frame(gt_tiles()[k])
            } by {
                assert(tile_distinct(gt_tiles()[k]) && tile_in_frame(gt_tiles()[k])) by {
                    if k == 0 {
                        assert(tile_distinct(gt_tiles()[0]));
                        assert(tile_in_frame(gt_tiles()[0]));
                    } else if k == 1 {
                        assert(tile_distinct(gt_tiles()[1]));
                        assert(tile_in_frame(gt_tiles()[1]));
                    } else if k == 2 {
                        assert(tile_distinct(gt_tiles()[2]));
                        assert(tile_in_frame(gt_tiles()[2]));
                    } else if k == 3 {
                        assert(tile_distinct(gt_tiles()[3]));
                        assert(tile_in_frame(gt_tiles()[3]));
                    } else if k == 4 {
                        assert(tile_distinct(gt_tiles()[4]));
                        assert(tile_in_frame(gt_tiles()[4]));
                    } else if k == 5 {
                        assert(tile_distinct(gt_tiles()[5]));
                        assert(tile_in_frame(gt_tiles()[5]));
                    } else if k == 6 {
                        assert(tile_distinct(gt_tiles()[6]));
                        assert(tile_in_frame(gt_tiles()[6]));
                    } else if k == 7 {
                        assert(tile_distinct(gt_tiles()[7]));
                        assert(tile_in_frame(gt_tiles()[7]));
                    } else {
                        assert(tile_distinct(gt_tiles()[8]));
                        assert(tile_in_frame(gt_tiles()[8]));
                    }
                }
            }
            lemma_gt_tiles_chain();
            assert(catalog_wf(gt_tiles()));
        }
        r
    }

    fn coors(&self) -> (r: Vec<Coordinate>) {
        let r: Vec<Coordinate> = vec![
            c(0, 0), c(1, 0), c(2, 0), c(3, 0), c(4, 0), c(5, 0),
            c(0, 1), c(1, 1), c(2, 1), c(3, 1), c(4, 1), c(5, 1),
            c(0, 2), c(1, 2), c(2, 2), c(3, 2), c(4, 2), c(5, 2), c(6, 2),
            c(0, 3), c(1, 3), c(2, 3), c(3, 3), c(4, 3), c(5, 3), c(6, 3),
            c(0, 4), c(1, 4), c(2, 4), c(3, 4), c(4, 4), c(5, 4), c(6, 4),
            c(0, 5), c(1, 5), c(2, 5), c(3, 5), c(4, 5), c(5, 5), c(6, 5),
            c(4, 6), c(5, 6), c(6, 6),
        ];
        proof {
            assert(r@ =~= gt_coors());
            assert(tile_in_frame(gt_coors()));
        }
        r
    }

    fn point_in_time(&self, pit: &AllTime) -> (r: Option<Vec<Coordinate>>) {
        let month_coor = match *pit.month() {
            Month::January => c(0, 0),
            Month::February => c(1, 0),
            Month::March => c(2, 0),
            Month::April => c(3, 0),
            Month::May => c(4, 0),
            Month::June => c(5, 0),
            Month::July => c(0, 1),
            Month::August => c(1, 1),
            Month::September => c(2, 1),
            Month::October => c(3, 1),
            Month::November => c(4, 1),
            Month::December => c(5, 1),
        };
        let day = pit.day_of_month();
        if day < 1 || day > 30 {
            return None;
        }
        let day_coor = if day <= 7 {
            c((day - 1) as i32, 2)
        } else if day <= 14 {
            c((day - 8) as i32, 3)
        } else if day <= 21 {
            c((day - 15) as i32, 4)
        } else if day <= 28 {
            c((day - 22) as i32, 5)
        } else {
            c((day - 29) as i32, 6)
        };
        let week_day_coor = match *pit.week_day() {
            WeekDay::Sunday => c(3, 6),
            WeekDay::Monday => c(4, 6),
            WeekDay::Tuesday => c(5, 6),
            WeekDay::Wednesday => c(6, 6),
            WeekDay::Thursday => c(4, 7),
            WeekDay::Friday => c(5, 7),
            WeekDay::Saturday => c(6, 7),
        };
        let mut out: Vec<Coordinate> = Vec::new();
        out.push(month_coor);
        out.push(day_coor);
        out.push(week_day_coor);
        proof {
            assert(month_coor == gt_month_cell(pit.spec_month()));
            assert(day_coor == gt_day_cell(pit.spec_day_of_month()));
            assert(week_day_coor == gt_week_day_cell(pit.spec_week_day()));
            assert(out@ =~= seq![
                gt_month_cell(pit.spec_month()),
                gt_day_cell(pit.spec_day_of_month()),
                gt_week_day_cell(pit.spec_week_day()),
            ]);
            assert(coord_in_frame(month_coor));
            assert(coord_in_frame(day_coor));
            assert(coord_in_frame(week_day_coor));
            assert(tile_in_frame(out@));
        }
        Some(out)
    }
}

/// Every catalogue shape of the tetromino board is listed so that each cell
/// touches a cell listed before it.
pub proof fn lemma_gt_tiles_chain()
    ensures
        forall|k: int|
            0 <= k < gt_tiles().len() ==> chain_connected(#[trigger] gt_tiles()[k]),
{
    assert forall|k: int|
        0 <= k < gt_tiles().len() implies chain_connected(#[trigger] gt_tiles()[k]) by {
        if k == 0 {
            let t = gt_tiles()[0];
            assert(adjacent(t[0], t[1]));
            assert(has_earlier_neighbor(t, 1));
            assert(adjacent(t[1], t[2]));
            assert(has_earlier_neighbor(t, 2));
            assert(adjacent(t[0], t[3]));
            assert(has_earlier_neighbor(t, 3));
            assert(adjacent(t[3], t[4]));
            assert(has_earlier_neighbor(t, 4));
            assert(adjacent(t[4], t[5]));
            assert(has_earlier_neighbor(t, 5));
            assert(chain_connected(t));
        } else if k == 1 {
            let t = gt_tiles()[1];
            assert(adjacent(t[0], t[1]));
            assert(has_earlier_neighbor(t, 1));
            assert(adjacent(t[1], t[2]));
            assert(has_earlier_neighbor(t, 2));
            assert(adjacent(t[0], t[3]));
            assert(has_earlier_neighbor(t, 3));
            assert(adjacent(t[2], t[4]));
            assert(has_earlier_neighbor(t, 4));
            assert(chain_connected(t));
        } else if k == 2 {
            let t = gt_tiles()[2];
            assert(adjacent(t[0], t[1]));
            assert(has_earlier_neighbor(t, 1));
            assert(adjacent(t[1], t[2]));
            assert(has_earlier_neighbor(t, 2));
            assert(adjacent(t[0], t[3]));
            assert(has_earlier_neighbor(t, 3));
            assert(adjacent(t[3], t[4]));
            assert(has_earlier_neighbor(t, 4));
            assert(chain_connected(t));
        } else if k == 3 {
            let t = gt_tiles()[3];
            assert(adjacent(t[0], t[1]));
            assert(has_earlier_neighbor(t, 1));
            assert(adjacent(t[1], t[2]));
            assert(has_earlier_neighbor(t, 2));
            assert(adjacent(t[0], t[3]));
            assert(has_earlier_neighbor(t, 3));
            assert(adjacent(t[1], t[4]));
            assert(has_earlier_neighbor(t, 4));
            assert(chain_connected(t));
        } else if k == 4 {
            let t = gt_tiles()[4];
            assert(adjacent(t[0], t[1]));
            assert(has_earlier_neighbor(t, 1));
            assert(adjacent(t[1], t[2]));
            assert(has_earlier_neighbor(t, 2));
            assert(adjacent(t[0], t[3]));
            assert(has_earlier_neighbor(t, 3));
            assert(chain_connected(t));
        } else if k == 5 {
            let t = gt_tiles()[5];
            assert(adjacent(t[0], t[1]));
            assert(has_earlier_neighbor(t, 1));
            assert(adjacent(t[1], t[2]));
            assert(has_earlier_neighbor(t, 2));
            assert(adjacent(t[2], t[3]));
            assert(has_earlier_neighbor(t, 3));
            assert(chain_connected(t));
        } else if k == 6 {
            let t = gt_tiles()[6];
            assert(adjacent(t[0], t[1]));
            assert(has_earlier_neighbor(t, 1));
            assert(adjacent(t[1], t[2]));
            assert(has_earlier_neighbor(t, 2));
            assert(adjacent(t[1], t[3]));
            assert(has_earlier_neighbor(t, 3));
            assert(chain_connected(t));
        } else if k == 7 {
            let t = gt_tiles()[7];
            assert(adjacent(t[0], t[1]));
            assert(has_earlier_neighbor(t, 1));
            assert(adjacent(t[1], t[2]));
            assert(has_earlier_neighbor(t, 2));
            assert(adjacent(t[2], t[3]));
            assert(has_earlier_neighbor(t, 3));
            assert(chain_connected(t));
        } else {
            let t = gt_tiles()[8];
            assert(adjacent(t[0], t[1]));
            assert(has_earlier_neighbor(t, 1));
            assert(adjacent(t[0], t[2]));
            assert(has_earlier_neighbor(t, 2));
            assert(adjacent(t[1], t[3]));
            assert(has_earlier_neighbor(t, 3));
            assert(chain_connected(t));
        }
    }
}

/// Every catalogue shape of the tetromino board is 4-connected, so the
/// island-pruning lemmas apply to this board's tiles.
pub proof fn lemma_gt_tiles_connected()
    ensures
        forall|k: int|
            0 <= k < gt_tiles().len() ==> connected(tile_cells(#[trigger] gt_tiles()[k])),
{
    lemma_gt_tiles_chain();
    assert forall|k: int|
        0 <= k < gt_tiles().len() implies connected(tile_cells(#[trigger] gt_tiles()[k])) by {
        lemma_chain_connected(gt_tiles()[k]);
    }
}

} // verus!
