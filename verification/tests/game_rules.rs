use minesweeper::cell::{Cell, CellState};
use minesweeper::field::Field;
use minesweeper::game::{
    ButtonState, CellInteractionResult, FieldSize, Game, GameInput, GameState,
    MenuButtonPressResult, MouseButton, Point,
};

/// A game already in play over a field with the given mines placed and all
/// numbers computed.
fn build_playing_game(width: u32, height: u32, mines: &[(u32, u32)]) -> Game {
    let size = FieldSize { width, height, mines: mines.len() as u32 };
    let mut cells: Vec<Cell> = Vec::new();
    for y in 0..height {
        for x in 0..width {
            cells.push(Cell::new(Point { x, y }));
        }
    }
    let mut field = Field { cells, size, flags: 0, opened: 0 };
    for &(x, y) in mines {
        field.cells[(y * width + x) as usize].set_mine();
    }
    for y in 0..height {
        for x in 0..width {
            let i = (y * width + x) as usize;
            if !field.cells[i].is_mine() {
                let mut n: u8 = 0;
                for dy in -1i64..=1 {
                    for dx in -1i64..=1 {
                        if dx == 0 && dy == 0 {
                            continue;
                        }
                        let nx = x as i64 + dx;
                        let ny = y as i64 + dy;
                        if nx >= 0
                            && ny >= 0
                            && (nx as u32) < width
                            && (ny as u32) < height
                            && field.cells[(ny as u32 * width + nx as u32) as usize].is_mine()
                        {
                            n += 1;
                        }
                    }
                }
                field.cells[i].set_number(n);
            }
        }
    }
    let mine_count = mines.len() as i64;
    Game {
        field,
        game_state: GameState::Playing,
        button_press_counter: 0,
        both_buttons_flag: false,
        menu_mines: mine_count,
        timer_running: true,
    }
}

fn click(game: &mut Game, button: MouseButton, state: ButtonState, x: u32, y: u32)
    -> CellInteractionResult {
    game.button_action(GameInput::FieldAction { button, state, cell: Point { x, y } })
}

fn open_cell(game: &mut Game, x: u32, y: u32) -> CellInteractionResult {
    click(game, MouseButton::Left, ButtonState::Release, x, y)
}

fn flag_cell(game: &mut Game, x: u32, y: u32) -> CellInteractionResult {
    click(game, MouseButton::Right, ButtonState::Release, x, y)
}

#[test]
fn a_new_game_is_ready() {
    let game = Game::new(FieldSize { width: 8, height: 8, mines: 10 });
    assert_eq!(game.game_state(), GameState::Ready);
    assert_eq!(game.menu_mines, 10);
    assert!(!game.timer_running);
    assert_eq!(game.field.flags(), 0);
}

#[test]
fn the_first_click_starts_play_and_is_safe() {
    for _ in 0..10 {
        let mut game = Game::new(FieldSize { width: 8, height: 8, mines: 10 });
        let r = open_cell(&mut game, 0, 0);
        assert!(!game.field.cell_at(0, 0).is_mine());
        assert_ne!(r, CellInteractionResult::Exploded);
        assert_eq!(game.field.cell_at(0, 0).state(), CellState::Opened);
        match game.game_state() {
            GameState::Playing => assert!(game.timer_running),
            GameState::Win => assert!(!game.timer_running),
            other => panic!("first click left the game in {:?}", other),
        }
    }
}

#[test]
fn flagging_in_play_updates_the_mine_counter() {
    let mut game = build_playing_game(4, 4, &[(3, 3)]);
    assert_eq!(flag_cell(&mut game, 0, 0), CellInteractionResult::Flagged);
    assert_eq!(game.menu_mines, 0);
    assert_eq!(flag_cell(&mut game, 1, 0), CellInteractionResult::Flagged);
    // more flags than mines: the counter goes negative rather than clamping
    assert_eq!(game.menu_mines, -1);
    assert_eq!(flag_cell(&mut game, 1, 0), CellInteractionResult::Unflagged);
    assert_eq!(game.menu_mines, 0);
    assert_eq!(game.game_state(), GameState::Playing);
}

#[test]
fn opening_a_mine_loses_the_game_once() {
    let mut game = build_playing_game(3, 3, &[(1, 1)]);
    assert_eq!(open_cell(&mut game, 1, 1), CellInteractionResult::Exploded);
    assert_eq!(game.game_state(), GameState::Loose);
    assert!(!game.timer_running);
    // the game is over: further clicks do nothing and cannot explode again
    assert_eq!(open_cell(&mut game, 0, 0), CellInteractionResult::NoAction);
    assert_eq!(flag_cell(&mut game, 0, 0), CellInteractionResult::NoAction);
    assert_eq!(game.game_state(), GameState::Loose);
}

#[test]
fn the_last_safe_cell_wins_the_game() {
    let mut game = build_playing_game(2, 2, &[(1, 1)]);
    assert_eq!(open_cell(&mut game, 0, 0), CellInteractionResult::Opened);
    assert_eq!(game.game_state(), GameState::Playing);
    assert_eq!(game.field.cells_left(), 2);
    assert_eq!(open_cell(&mut game, 1, 0), CellInteractionResult::Opened);
    // one safe cell left: not yet won
    assert_eq!(game.game_state(), GameState::Playing);
    assert_eq!(game.field.cells_left(), 1);
    assert_eq!(open_cell(&mut game, 0, 1), CellInteractionResult::Opened);
    assert_eq!(game.field.cells_left(), 0);
    assert_eq!(game.game_state(), GameState::Win);
    assert!(!game.timer_running);
}

#[test]
fn the_new_game_button_resets_from_anywhere() {
    let mut game = build_playing_game(3, 3, &[(1, 1)]);
    assert_eq!(open_cell(&mut game, 1, 1), CellInteractionResult::Exploded);
    assert_eq!(game.game_state(), GameState::Loose);
    let r = game.button_action(GameInput::MenuAction(MenuButtonPressResult::NewGame));
    assert_eq!(r, CellInteractionResult::NoAction);
    assert_eq!(game.game_state(), GameState::Ready);
    assert_eq!(game.field.flags(), 0);
    assert_eq!(game.field.cells_left(), 8);
    assert_eq!(game.menu_mines, 1);
    for y in 0..3 {
        for x in 0..3 {
            assert_eq!(game.field.cell_at(x, y).state(), CellState::Closed);
        }
    }
}

#[test]
fn a_menu_no_action_changes_nothing() {
    let mut game = build_playing_game(3, 3, &[(1, 1)]);
    let r = game.button_action(GameInput::MenuAction(MenuButtonPressResult::NoAction));
    assert_eq!(r, CellInteractionResult::NoAction);
    assert_eq!(game.game_state(), GameState::Playing);
    assert!(game.timer_running);
}

#[test]
fn the_two_button_gesture_chords() {
    let mut game = build_playing_game(3, 3, &[(0, 0)]);
    assert_eq!(open_cell(&mut game, 1, 1), CellInteractionResult::Opened);
    assert_eq!(flag_cell(&mut game, 0, 0), CellInteractionResult::Flagged);
    // hold both buttons over the opened 1, then release one of them
    assert_eq!(
        click(&mut game, MouseButton::Left, ButtonState::Press, 1, 1),
        CellInteractionResult::NoAction
    );
    assert_eq!(
        click(&mut game, MouseButton::Right, ButtonState::Press, 1, 1),
        CellInteractionResult::NoAction
    );
    let r = click(&mut game, MouseButton::Right, ButtonState::Release, 1, 1);
    assert_eq!(r, CellInteractionResult::Opened);
    for y in 0..3 {
        for x in 0..3 {
            if x == 0 && y == 0 {
                assert_eq!(game.field.cell_at(x, y).state(), CellState::Flagged);
            } else {
                assert_eq!(game.field.cell_at(x, y).state(), CellState::Opened);
            }
        }
    }
    assert_eq!(game.game_state(), GameState::Win);
}

#[test]
fn releasing_the_remaining_button_does_not_chord_again() {
    let mut game = build_playing_game(3, 3, &[(0, 0)]);
    assert_eq!(open_cell(&mut game, 1, 1), CellInteractionResult::Opened);
    assert_eq!(
        click(&mut game, MouseButton::Left, ButtonState::Press, 1, 1),
        CellInteractionResult::NoAction
    );
    assert_eq!(
        click(&mut game, MouseButton::Right, ButtonState::Press, 1, 1),
        CellInteractionResult::NoAction
    );
    // no flags around the 1: the chord must not fire on either release
    assert_eq!(
        click(&mut game, MouseButton::Right, ButtonState::Release, 1, 1),
        CellInteractionResult::NoAction
    );
    assert_eq!(game.field.cell_at(0, 0).state(), CellState::Closed);
    // the second release is an ordinary left release over an opened cell
    assert_eq!(
        click(&mut game, MouseButton::Left, ButtonState::Release, 1, 1),
        CellInteractionResult::NoAction
    );
    assert_eq!(game.field.cell_at(0, 0).state(), CellState::Closed);
    assert_eq!(game.game_state(), GameState::Playing);
}

#[test]
fn a_mineless_board_wins_on_the_first_click() {
    let mut game = Game::new(FieldSize { width: 1, height: 1, mines: 0 });
    assert_eq!(open_cell(&mut game, 0, 0), CellInteractionResult::Opened);
    assert_eq!(game.field.cells_left(), 0);
    assert_eq!(game.game_state(), GameState::Win);
}

#[test]
fn a_press_in_play_changes_no_state() {
    let mut game = build_playing_game(3, 3, &[(1, 1)]);
    let r = click(&mut game, MouseButton::Left, ButtonState::Press, 2, 2);
    assert_eq!(r, CellInteractionResult::NoAction);
    assert_eq!(game.game_state(), GameState::Playing);
    assert_eq!(game.field.cells_left(), 8);
    assert_eq!(game.field.cell_at(2, 2).state(), CellState::Closed);
    assert_eq!(game.menu_mines, 1);
    assert!(game.timer_running);
    // the press is remembered for the chord gesture
    assert_eq!(game.button_press_counter, 1);
}

