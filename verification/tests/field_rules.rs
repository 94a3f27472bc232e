use minesweeper::cell::{Cell, CellContent, CellState};
use minesweeper::field::Field;
use minesweeper::game::{ButtonState, CellInteractionResult, FieldSize, MouseButton, Point};

/// A field with the given mines placed and every number computed, all cells
/// closed.
fn build_field(width: u32, height: u32, mines: &[(u32, u32)]) -> Field {
    let size = FieldSize { width, height, mines: mines.len() as u32 };
    let mut cells: Vec<Cell> = Vec::new();
    for y in 0..height {
        for x in 0..width {
            cells.push(Cell::new(Point { x, y }));
        }
    }
    let mut field = Field { cells, size, flags: 0, opened: 0 };
    for &(x, y) in mines {
        field.cells[(y * width + x) as usize].set_mine();
    }
    for y in 0..height {
        for x in 0..width {
            let i = (y * width + x) as usize;
            if !field.cells[i].is_mine() {
                let mut n: u8 = 0;
                for dy in -1i64..=1 {
                    for dx in -1i64..=1 {
                        if dx == 0 && dy == 0 {
                            continue;
                        }
                        let nx = x as i64 + dx;
                        let ny = y as i64 + dy;
                        if nx >= 0
                            && ny >= 0
                            && (nx as u32) < width
                            && (ny as u32) < height
                            && field.cells[(ny as u32 * width + nx as u32) as usize].is_mine()
                        {
                            n += 1;
                        }
                    }
                }
                field.cells[i].set_number(n);
            }
        }
    }
    field
}

fn open_at(field: &mut Field, x: u32, y: u32) -> CellInteractionResult {
    field.button_action(MouseButton::Left, ButtonState::Release, Point { x, y }, false)
}

fn flag_at(field: &mut Field, x: u32, y: u32) -> CellInteractionResult {
    field.button_action(MouseButton::Right, ButtonState::Release, Point { x, y }, false)
}

fn chord_at(field: &mut Field, x: u32, y: u32) -> CellInteractionResult {
    field.button_action(MouseButton::Left, ButtonState::Release, Point { x, y }, true)
}

#[test]
fn new_field_is_closed_and_empty() {
    let size = FieldSize { width: 8, height: 8, mines: 10 };
    let field = Field::new(size);
    assert_eq!(field.mines(), 10);
    assert_eq!(field.flags(), 0);
    assert_eq!(field.cells_left(), 54);
    for y in 0..8 {
        for x in 0..8 {
            let cell = field.cell_at(x, y);
            assert_eq!(cell.state(), CellState::Closed);
            assert!(cell.is_empty());
            assert_eq!(cell.position(), Point { x, y });
        }
    }
}

#[test]
fn init_never_mines_the_first_click() {
    // the clicked cell's whole row and column stay free of mines
    let size = FieldSize { width: 8, height: 8, mines: 10 };
    for _ in 0..25 {
        let mut field = Field::new(size);
        field.init(Point { x: 3, y: 5 });
        assert!(!field.cell_at(3, 5).is_mine());
        for x in 0..8 {
            assert!(!field.cell_at(x, 5).is_mine());
        }
        for y in 0..8 {
            assert!(!field.cell_at(3, y).is_mine());
        }
    }
}

#[test]
fn init_places_exactly_the_configured_mines() {
    let size = FieldSize { width: 8, height: 8, mines: 10 };
    for _ in 0..25 {
        let mut field = Field::new(size);
        field.init(Point { x: 0, y: 0 });
        let mut count: u32 = 0;
        for y in 0..8 {
            for x in 0..8 {
                if field.cell_at(x, y).is_mine() {
                    count += 1;
                }
            }
        }
        assert_eq!(count, 10);
    }
}

#[test]
fn init_numbers_count_their_neighbourhoods() {
    let size = FieldSize { width: 13, height: 15, mines: 40 };
    for _ in 0..5 {
        let mut field = Field::new(size);
        field.init(Point { x: 6, y: 7 });
        for y in 0..15i64 {
            for x in 0..13i64 {
                let cell = field.cell_at(x as u32, y as u32);
                if cell.is_mine() {
                    continue;
                }
                let mut expected: u8 = 0;
                for dy in -1i64..=1 {
                    for dx in -1i64..=1 {
                        if dx == 0 && dy == 0 {
                            continue;
                        }
                        let nx = x + dx;
                        let ny = y + dy;
                        if nx >= 0 && ny >= 0 && nx < 13 && ny < 15 {
                            if field.cell_at(nx as u32, ny as u32).is_mine() {
                                expected += 1;
                            }
                        }
                    }
                }
                let content = field.cell_at(x as u32, y as u32).content;
                if expected == 0 {
                    assert_eq!(content, CellContent::Empty);
                } else {
                    assert_eq!(content, CellContent::Number(expected));
                }
            }
        }
    }
}

#[test]
fn reset_clears_the_grid_and_counters() {
    let size = FieldSize { width: 8, height: 8, mines: 10 };
    let mut field = Field::new(size);
    field.init(Point { x: 0, y: 0 });
    assert_eq!(open_at(&mut field, 0, 0), CellInteractionResult::Opened);
    assert_eq!(flag_at(&mut field, 7, 7), CellInteractionResult::Flagged);
    field.reset();
    assert_eq!(field.flags(), 0);
    assert_eq!(field.cells_left(), 54);
    for y in 0..8 {
        for x in 0..8 {
            assert_eq!(field.cell_at(x, y).state(), CellState::Closed);
            assert!(field.cell_at(x, y).is_empty());
        }
    }
}

#[test]
fn flagging_twice_restores_the_flag_count() {
    let mut field = build_field(4, 4, &[(3, 3)]);
    let before = field.flags();
    assert_eq!(flag_at(&mut field, 1, 1), CellInteractionResult::Flagged);
    assert_eq!(field.flags(), before + 1);
    assert_eq!(field.cell_at(1, 1).state(), CellState::Flagged);
    assert_eq!(flag_at(&mut field, 1, 1), CellInteractionResult::Unflagged);
    assert_eq!(field.flags(), before);
    assert_eq!(field.cell_at(1, 1).state(), CellState::Closed);
}

#[test]
fn opened_and_flagged_cells_cannot_be_reflagged_or_reopened() {
    let mut field = build_field(4, 4, &[(3, 3)]);
    assert_eq!(open_at(&mut field, 2, 2), CellInteractionResult::Opened);
    assert_eq!(flag_at(&mut field, 2, 2), CellInteractionResult::NoAction);
    assert_eq!(open_at(&mut field, 2, 2), CellInteractionResult::NoAction);
    assert_eq!(flag_at(&mut field, 0, 0), CellInteractionResult::Flagged);
    assert_eq!(open_at(&mut field, 0, 0), CellInteractionResult::NoAction);
}

#[test]
fn a_press_changes_nothing() {
    let mut field = build_field(4, 4, &[(3, 3)]);
    let r = field.button_action(MouseButton::Left, ButtonState::Press, Point { x: 0, y: 0 }, false);
    assert_eq!(r, CellInteractionResult::NoAction);
    assert_eq!(field.cell_at(0, 0).state(), CellState::Closed);
    assert_eq!(field.cells_left(), 15);
}

#[test]
fn opening_a_mine_explodes() {
    let mut field = build_field(4, 4, &[(1, 1)]);
    assert_eq!(open_at(&mut field, 1, 1), CellInteractionResult::Exploded);
    assert_eq!(field.cell_at(1, 1).state(), CellState::Opened);
}

#[test]
fn opening_an_empty_cell_reveals_its_whole_region() {
    // one mine in the far corner: every other cell is the connected empty
    // region plus its ring of numbered cells, so one click opens them all
    let mut field = build_field(4, 4, &[(3, 3)]);
    assert_eq!(open_at(&mut field, 0, 0), CellInteractionResult::Opened);
    for y in 0..4 {
        for x in 0..4 {
            if x == 3 && y == 3 {
                assert_eq!(field.cell_at(x, y).state(), CellState::Closed);
            } else {
                assert_eq!(field.cell_at(x, y).state(), CellState::Opened);
            }
        }
    }
    // each cell was counted exactly once
    assert_eq!(field.cells_left(), 0);
}

#[test]
fn cascade_stops_at_numbered_cells() {
    // mines down the middle column wall off the right side
    let mut field = build_field(5, 3, &[(2, 0), (2, 1), (2, 2)]);
    assert_eq!(open_at(&mut field, 0, 1), CellInteractionResult::Opened);
    for y in 0..3 {
        // left side: empty column 0 and numbered column 1 are opened
        assert_eq!(field.cell_at(0, y).state(), CellState::Opened);
        assert_eq!(field.cell_at(1, y).state(), CellState::Opened);
        // the wall and the right side stay closed
        assert_eq!(field.cell_at(2, y).state(), CellState::Closed);
        assert_eq!(field.cell_at(3, y).state(), CellState::Closed);
        assert_eq!(field.cell_at(4, y).state(), CellState::Closed);
    }
}

#[test]
fn cascade_skips_flagged_cells() {
    let mut field = build_field(4, 4, &[(3, 3)]);
    assert_eq!(flag_at(&mut field, 0, 3), CellInteractionResult::Flagged);
    assert_eq!(open_at(&mut field, 0, 0), CellInteractionResult::Opened);
    assert_eq!(field.cell_at(0, 3).state(), CellState::Flagged);
    assert_eq!(field.cell_at(3, 3).state(), CellState::Closed);
    // 16 cells - 1 mine - 1 flagged = 14 opened
    assert_eq!(field.cells_left(), 1);
}

#[test]
fn chord_with_matching_flags_opens_the_neighbours() {
    let mut field = build_field(3, 3, &[(0, 0)]);
    assert_eq!(open_at(&mut field, 1, 1), CellInteractionResult::Opened);
    assert_eq!(field.cell_at(1, 1).content, CellContent::Number(1));
    assert_eq!(flag_at(&mut field, 0, 0), CellInteractionResult::Flagged);
    assert_eq!(chord_at(&mut field, 1, 1), CellInteractionResult::Opened);
    for y in 0..3 {
        for x in 0..3 {
            if x == 0 && y == 0 {
                assert_eq!(field.cell_at(x, y).state(), CellState::Flagged);
            } else {
                assert_eq!(field.cell_at(x, y).state(), CellState::Opened);
            }
        }
    }
}

#[test]
fn chord_with_wrong_flag_count_does_nothing() {
    let mut field = build_field(3, 3, &[(0, 0)]);
    assert_eq!(open_at(&mut field, 1, 1), CellInteractionResult::Opened);
    assert_eq!(flag_at(&mut field, 0, 0), CellInteractionResult::Flagged);
    assert_eq!(flag_at(&mut field, 2, 0), CellInteractionResult::Flagged);
    // two flags around a 1: the chord must not fire
    assert_eq!(chord_at(&mut field, 1, 1), CellInteractionResult::NoAction);
    assert_eq!(field.cell_at(1, 0).state(), CellState::Closed);
    assert_eq!(field.cell_at(0, 1).state(), CellState::Closed);
}

#[test]
fn chord_on_a_closed_or_empty_cell_does_nothing() {
    let mut field = build_field(3, 3, &[(0, 0)]);
    assert_eq!(chord_at(&mut field, 2, 2), CellInteractionResult::NoAction);
    assert_eq!(open_at(&mut field, 2, 2), CellInteractionResult::Opened);
    // (2, 2) is empty, not a number: a chord on it is still a no-op
    assert_eq!(chord_at(&mut field, 2, 2), CellInteractionResult::NoAction);
}

#[test]
fn chord_onto_a_wrongly_flagged_mine_explodes() {
    let mut field = build_field(3, 3, &[(0, 0)]);
    assert_eq!(open_at(&mut field, 1, 1), CellInteractionResult::Opened);
    // flag a safe cell instead of the mine, then chord: the mine opens
    assert_eq!(flag_at(&mut field, 2, 0), CellInteractionResult::Flagged);
    assert_eq!(chord_at(&mut field, 1, 1), CellInteractionResult::Exploded);
    assert_eq!(field.cell_at(0, 0).state(), CellState::Opened);
}

#[test]
fn a_tiny_board_forces_the_mine_position() {
    // on a 2 x 2 board the first click's row and column leave exactly one
    // cell for the single mine
    let size = FieldSize { width: 2, height: 2, mines: 1 };
    let mut field = Field::new(size);
    field.init(Point { x: 0, y: 0 });
    assert!(!field.cell_at(0, 0).is_mine());
    assert!(!field.cell_at(1, 0).is_mine());
    assert!(!field.cell_at(0, 1).is_mine());
    assert!(field.cell_at(1, 1).is_mine());
    assert_eq!(field.cell_at(0, 0).content, CellContent::Number(1));
    assert_eq!(field.cell_at(1, 0).content, CellContent::Number(1));
    assert_eq!(field.cell_at(0, 1).content, CellContent::Number(1));
}

#[test]
fn the_expert_preset_places_all_its_mines() {
    let size = FieldSize { width: 16, height: 30, mines: 99 };
    let mut field = Field::new(size);
    field.init(Point { x: 15, y: 29 });
    let mut count: u32 = 0;
    for y in 0..30 {
        for x in 0..16 {
            if field.cell_at(x, y).is_mine() {
                count += 1;
            }
        }
    }
    assert_eq!(count, 99);
    assert!(!field.cell_at(15, 29).is_mine());
    assert_eq!(field.cells_left(), 16 * 30 - 99);
}

#[test]
fn the_presets_are_the_classic_boards() {
    let beginner = minesweeper::field::field_size_10();
    assert_eq!((beginner.width, beginner.height, beginner.mines), (8, 8, 10));
    let intermediate = minesweeper::field::field_size_40();
    assert_eq!((intermediate.width, intermediate.height, intermediate.mines), (13, 15, 40));
    let expert = minesweeper::field::field_size_99();
    assert_eq!((expert.width, expert.height, expert.mines), (16, 30, 99));
    // each preset makes a playable field
    assert_eq!(Field::new(beginner).cells_left(), 54);
    assert_eq!(Field::new(intermediate).cells_left(), 155);
    assert_eq!(Field::new(expert).cells_left(), 381);
}

