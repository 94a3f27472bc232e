//! Shared value types and the game state machine.

use vstd::prelude::*;

use crate::cell::{CellContent, CellState};
use crate::field::{
    button_action_post, chord_applies, count_mines, init_post, lemma_count_zero_inverse,
    lemma_safe_open_bound, opened_pred, same_field, Field,
};

verus! {

/// A zero-based grid coordinate: `x` counts columns, `y` counts rows.
#[derive(Debug, Copy, Clone, PartialEq, Eq, Structural)]
pub struct Point {
    pub x: u32,
    pub y: u32,
}

/// Board configuration: grid dimensions and the number of hidden mines.
#[derive(Debug, Copy, Clone, PartialEq, Eq, Structural)]
pub struct FieldSize {
    pub width: u32,
    pub height: u32,
    pub mines: u32,
}

impl FieldSize {
    /// Number of cells in the grid.
    pub open spec fn area(self) -> int {
        self.width * self.height
    }

    /// A usable configuration: positive dimensions, a cell count that fits in
    /// a `u32`, and few enough mines that they fit outside the row and column
    /// of the first click (mine placement excludes both, so a
    /// `(width - 1) x (height - 1)` subgrid must be able to hold all mines).
    pub open spec fn wf(self) -> bool {
        &&& 0 < self.width
        &&& 0 < self.height
        &&& self.area() <= u32::MAX
        &&& self.mines < self.area()
        &&& self.mines <= (self.width - 1) * (self.height - 1)
    }

    /// Is `p` a coordinate inside the grid?
    pub open spec fn contains(self, p: Point) -> bool {
        p.x < self.width && p.y < self.height
    }

    /// Index of `p` in a row-major flat array of cells.
    pub open spec fn idx(self, p: Point) -> int {
        p.y * self.width + p.x
    }
}

/// Row-major indices are in range and distinct coordinates get distinct
/// indices.
pub proof fn lemma_idx_bounds(size: FieldSize, p: Point)
    requires
        size.wf(),
        size.contains(p),
    ensures
        0 <= size.idx(p) < size.area(),
{
    assert(p.y * size.width + p.x < size.width * size.height) by (nonlinear_arith)
        requires
            p.x < size.width,
            p.y < size.height,
    ;
}

/// Row-major indexing is injective on in-bounds coordinates.
pub proof fn lemma_idx_injective(size: FieldSize, p: Point, q: Point)
    requires
        size.wf(),
        size.contains(p),
        size.contains(q),
        size.idx(p) == size.idx(q),
    ensures
        p == q,
{
    assert(p.y == q.y && p.x == q.x) by (nonlinear_arith)
        requires
            p.x < size.width,
            q.x < size.width,
            p.y * size.width + p.x == q.y * size.width + q.x,
    ;
}

/// The coordinate whose row-major index is `i`.
pub open spec fn point_at(size: FieldSize, i: int) -> Point {
    Point { x: (i % (size.width as int)) as u32, y: (i / (size.width as int)) as u32 }
}

/// Every index of the flat grid belongs to exactly the coordinate
/// `point_at` names.
pub proof fn lemma_point_at(size: FieldSize, i: int)
    requires
        size.wf(),
        0 <= i < size.area(),
    ensures
        size.contains(point_at(size, i)),
        size.idx(point_at(size, i)) == i,
{
    let w = size.width as int;
    let h = size.height as int;
    vstd::arithmetic::div_mod::lemma_fundamental_div_mod(i, w);
    vstd::arithmetic::div_mod::lemma_mod_bound(i, w);
    let d = i / w;
    let r = i % w;
    assert(i == w * d + r);
    assert(0 <= d) by (nonlinear_arith)
        requires
            i == w * d + r,
            0 <= i,
            0 <= r < w,
    ;
    assert(d < h) by (nonlinear_arith)
        requires
            i == w * d + r,
            i < w * h,
            0 <= r < w,
            0 < w,
    ;
    assert(size.idx(point_at(size, i)) == d * w + r);
    assert(d * w == w * d) by (nonlinear_arith);
}

/// Overall game phase.  `Ready` is the initial state (no mines placed yet),
/// `Win` and `Loose` are terminal until a new game resets to `Ready`.
#[derive(Debug, Copy, Clone, PartialEq, Eq, Structural)]
pub enum GameState {
    Ready,
    Playing,
    Win,
    Loose,
}

/// Outcome of a single interaction with the field.
#[derive(Debug, Copy, Clone, PartialEq, Eq, Structural)]
pub enum CellInteractionResult {
    NoAction,
    Opened,
    Flagged,
    Unflagged,
    Exploded,
}

/// What the menu collaborator resolved a click in the menu area to.
#[derive(Debug, Copy, Clone, PartialEq, Eq, Structural)]
pub enum MenuButtonPressResult {
    NoAction,
    NewGame,
}

/// Identity of a mouse button, as far as the rules care.
#[derive(Debug, Copy, Clone, PartialEq, Eq, Structural)]
pub enum MouseButton {
    Left,
    Right,
}

/// Phase of a button event.
#[derive(Debug, Copy, Clone, PartialEq, Eq, Structural)]
pub enum ButtonState {
    Press,
    Release,
}

/// One already-resolved input event for the game: either what the menu
/// collaborator made of a click in the menu area, or a button event over a
/// field cell (the pointer position already mapped to grid coordinates).
#[derive(Debug, Copy, Clone, PartialEq, Eq, Structural)]
pub enum GameInput {
    MenuAction(MenuButtonPressResult),
    FieldAction { button: MouseButton, state: ButtonState, cell: Point },
}

/// The press counter after one button event: a press counts up (capped at
/// two, the number of buttons the gesture cares about), a release counts
/// down.
pub open spec fn counter_after(counter: u8, state: ButtonState) -> u8 {
    if state == ButtonState::Press {
        if counter < 2 {
            (counter + 1) as u8
        } else {
            counter
        }
    } else {
        if counter > 0 {
            (counter - 1) as u8
        } else {
            counter
        }
    }
}

/// The chord latch after one button event: it is set by the press that
/// brings the counter to two.
pub open spec fn latch_after(latch: bool, counter: u8, state: ButtonState) -> bool {
    latch || (state == ButtonState::Press && counter == 1)
}

/// The field sees a two-button chord exactly when the latch is set and one
/// button is still held after the event, that is when the second-to-last
/// button was just released.
pub open spec fn chord_seen(latch: bool, counter: u8, state: ButtonState) -> bool {
    latch_after(latch, counter, state) && counter_after(counter, state) == 1
}

/// The event that starts play: a left release over a field cell while the
/// game is `Ready`.
pub open spec fn starts_play(game_state: GameState, input: GameInput) -> bool {
    game_state == GameState::Ready && (input matches GameInput::FieldAction {
        button: MouseButton::Left,
        state: ButtonState::Release,
        ..
    })
}

/// The finite-state machine binding the field to the menu collaborator.
/// `menu_mines` is the value the menu's mine counter should display (it can
/// go below zero when more cells are flagged than there are mines), and
/// `timer_running` tells the collaborator whether its timer should run.
/// `button_press_counter` and `both_buttons_flag` track the two-button
/// chord gesture.
pub struct Game {
    pub field: Field,
    pub game_state: GameState,
    pub button_press_counter: u8,
    pub both_buttons_flag: bool,
    pub menu_mines: i64,
    pub timer_running: bool,
}

impl Game {
    /// The machine's invariant.  In `Ready` no mines are placed and nothing
    /// is opened; in `Playing` all mines are placed, the numbers are
    /// consistent and no mine has been opened; the timer runs exactly while
    /// playing, and in both live states the menu counter shows
    /// `mines - flags`.
    pub open spec fn wf(self) -> bool {
        &&& self.field.wf()
        &&& self.button_press_counter <= 2
        &&& self.timer_running == (self.game_state == GameState::Playing)
        &&& self.game_state == GameState::Ready ==> self.field.opened == 0 && count_mines(
            self.field.cells@,
        ) == 0 && self.field.numbers_wf() && self.field.no_opened_mine()
        &&& self.game_state == GameState::Playing ==> count_mines(self.field.cells@)
            == self.field.size.mines && self.field.numbers_wf() && self.field.no_opened_mine()
        &&& self.game_state == GameState::Ready || self.game_state == GameState::Playing
            ==> self.menu_mines == self.field.size.mines - self.field.flags
    }
}

/// Nothing about the game changed.
pub open spec fn same_game(pre: Game, post: Game) -> bool {
    &&& same_field(pre.field, post.field)
    &&& post.game_state == pre.game_state
    &&& post.button_press_counter == pre.button_press_counter
    &&& post.both_buttons_flag == pre.both_buttons_flag
    &&& post.menu_mines == pre.menu_mines
    &&& post.timer_running == pre.timer_running
}

impl Game {
    /// A new game over a fresh field, ready for its first click.
    pub fn new(size: FieldSize) -> (g: Game)
        requires
            size.wf(),
        ensures
            g.wf(),
            g.game_state == GameState::Ready,
            g.field.size == size,
            g.field.flags == 0,
            g.field.opened == 0,
            g.menu_mines == size.mines,
            g.button_press_counter == 0,
            !g.both_buttons_flag,
            !g.timer_running,
    {
        let field = Field::new(size);
        let mines = field.mines();
        Game {
            field,
            game_state: GameState::Ready,
            button_press_counter: 0,
            both_buttons_flag: false,
            menu_mines: mines as i64,
            timer_running: false,
        }
    }

    pub fn game_state(&self) -> (s: GameState)
        ensures
            s == self.game_state,
    {
        self.game_state
    }

    /// Exit actions of the current state: leaving `Playing` stops the timer
    /// and forgets the chord gesture.
    fn end_current_state(&mut self)
        ensures
            final(self).field == old(self).field,
            final(self).game_state == old(self).game_state,
            final(self).menu_mines == old(self).menu_mines,
            old(self).game_state == GameState::Playing ==> !final(self).timer_running && final(self).button_press_counter == 0 && !final(self).both_buttons_flag,
            old(self).game_state != GameState::Playing ==> final(self).timer_running == old(self).timer_running && final(self).button_press_counter == old(self).button_press_counter
                && final(self).both_buttons_flag == old(self).both_buttons_flag,
    {
        match self.game_state {
            GameState::Ready => {},
            GameState::Playing => {
                self.timer_running = false;
                self.button_press_counter = 0;
                self.both_buttons_flag = false;
            },
            GameState::Win => {},
            GameState::Loose => {},
        }
    }

    /// Entry actions of `state`: `Ready` resets the field and the mine
    /// counter, `Playing` starts the timer and sets the mine counter,
    /// `Win`/`Loose` only change the displayed face (which the collaborator
    /// derives from the state).
    fn enter_new_state(&mut self, state: GameState)
        requires
            old(self).field.wf(),
        ensures
            final(self).game_state == state,
            final(self).field.wf(),
            final(self).field.size == old(self).field.size,
            final(self).button_press_counter == old(self).button_press_counter,
            final(self).both_buttons_flag == old(self).both_buttons_flag,
            state == GameState::Ready ==> final(self).field.opened == 0 && final(self).field.flags
                == 0 && count_mines(final(self).field.cells@) == 0
                && final(self).field.numbers_wf() && final(self).field.no_opened_mine() && final(self).menu_mines == final(self).field.size.mines && final(self).timer_running == old(self).timer_running && (forall|p: Point|
                final(self).field.size.contains(p) ==> (#[trigger] final(self).field.cell(
                    p,
                )).state == CellState::Closed),
            state == GameState::Playing ==> final(self).field == old(self).field && final(self).menu_mines == final(self).field.size.mines && final(self).timer_running,
            state == GameState::Win || state == GameState::Loose ==> final(self).field == old(self).field && final(self).menu_mines == old(self).menu_mines && final(self).timer_running
                == old(self).timer_running,
    {
        self.game_state = state;
        match state {
            GameState::Ready => {
                self.field.reset();
                let mines = self.field.mines();
                self.menu_mines = mines as i64;
            },
            GameState::Playing => {
                self.timer_running = true;
                let mines = self.field.mines();
                self.menu_mines = mines as i64;
            },
            GameState::Win => {},
            GameState::Loose => {},
        }
    }

    /// Leave the current state, then enter `state` (never used to enter
    /// `Playing`; the first click enters it directly).
    fn switch_state(&mut self, state: GameState)
        requires
            old(self).field.wf(),
            old(self).button_press_counter <= 2,
            state != GameState::Playing,
        ensures
            final(self).game_state == state,
            final(self).field.wf(),
            final(self).field.size == old(self).field.size,
            final(self).button_press_counter <= 2,
            !final(self).timer_running || old(self).game_state != GameState::Playing && old(self).timer_running,
            state == GameState::Ready ==> final(self).field.opened == 0 && final(self).field.flags
                == 0 && count_mines(final(self).field.cells@) == 0
                && final(self).field.numbers_wf() && final(self).field.no_opened_mine() && final(self).menu_mines == final(self).field.size.mines && (forall|p: Point|
                final(self).field.size.contains(p) ==> (#[trigger] final(self).field.cell(
                    p,
                )).state == CellState::Closed),
            state != GameState::Ready ==> final(self).field == old(self).field && final(self).menu_mines == old(self).menu_mines,
            old(self).game_state == GameState::Playing ==> !final(self).both_buttons_flag && final(self).button_press_counter == 0,
    {
        self.end_current_state();
        self.enter_new_state(state);
    }

    /// Handle one button event over a field cell while the game is live.
    /// The first left release places the mines (never on the clicked cell's
    /// row or column) and starts play; the press counter and latch track
    /// the two-button chord gesture; the event is then dispatched to the
    /// field.
    fn button_action_field(
        &mut self,
        button: MouseButton,
        state: ButtonState,
        cell: Point,
    ) -> (r: CellInteractionResult)
        requires
            old(self).wf(),
            old(self).field.size.contains(cell),
            old(self).game_state == GameState::Ready || old(self).game_state
                == GameState::Playing,
        ensures
            final(self).field.wf(),
            final(self).field.size == old(self).field.size,
            final(self).game_state == (if old(self).game_state == GameState::Ready && state
                == ButtonState::Release && button == MouseButton::Left {
                GameState::Playing
            } else {
                old(self).game_state
            }),
            final(self).button_press_counter <= 2,
            final(self).timer_running == (final(self).game_state == GameState::Playing),
            r != CellInteractionResult::Flagged && r != CellInteractionResult::Unflagged ==> final(self).menu_mines == final(self).field.size.mines - final(self).field.flags,
            final(self).game_state == GameState::Ready ==> final(self).field.opened == 0
                && count_mines(final(self).field.cells@) == 0 && final(self).field.numbers_wf()
                && final(self).field.no_opened_mine(),
            final(self).game_state == GameState::Playing ==> count_mines(final(self).field.cells@)
                == final(self).field.size.mines && final(self).field.numbers_wf() && (r
                != CellInteractionResult::Exploded ==> final(self).field.no_opened_mine()),
            r == CellInteractionResult::Opened || r == CellInteractionResult::Exploded ==> final(self).game_state == GameState::Playing,
            r == CellInteractionResult::Flagged || r == CellInteractionResult::Unflagged ==> final(self).game_state == old(self).game_state,
            old(self).game_state == GameState::Ready && state == ButtonState::Release && button
                == MouseButton::Left ==> r != CellInteractionResult::Exploded,
            final(self).button_press_counter == counter_after(
                old(self).button_press_counter,
                state,
            ),
            final(self).both_buttons_flag == latch_after(
                old(self).both_buttons_flag,
                old(self).button_press_counter,
                state,
            ),
            !(old(self).game_state == GameState::Ready && state == ButtonState::Release && button
                == MouseButton::Left) ==> button_action_post(
                old(self).field,
                final(self).field,
                button,
                state,
                cell,
                chord_seen(old(self).both_buttons_flag, old(self).button_press_counter, state),
                r,
            ),
            old(self).game_state == GameState::Ready && state == ButtonState::Release && button
                == MouseButton::Left ==> exists|placed: Field|
                #[trigger] init_post(placed, old(self).field.size, cell) && button_action_post(
                    placed,
                    final(self).field,
                    button,
                    state,
                    cell,
                    chord_seen(old(self).both_buttons_flag, old(self).button_press_counter, state),
                    r,
                ),
    {
        if state == ButtonState::Release && button == MouseButton::Left && self.game_state
            == GameState::Ready {
            self.field.init(cell);
            self.enter_new_state(GameState::Playing);
        }
        if state == ButtonState::Press {
            if self.button_press_counter < 2 {
                self.button_press_counter = self.button_press_counter + 1;
                if self.button_press_counter == 2 {
                    self.both_buttons_flag = true;
                }
            }
        } else {
            if self.button_press_counter > 0 {
                self.button_press_counter = self.button_press_counter - 1;
            }
        }
        let both = self.both_buttons_flag && self.button_press_counter == 1;
        let ghost pre_field = self.field;
        proof {
            assert(self.button_press_counter == counter_after(
                old(self).button_press_counter,
                state,
            ));
            assert(self.both_buttons_flag == latch_after(
                old(self).both_buttons_flag,
                old(self).button_press_counter,
                state,
            ));
            assert(both == chord_seen(
                old(self).both_buttons_flag,
                old(self).button_press_counter,
                state,
            ));
        }
        let r = self.field.button_action(button, state, cell, both);
        proof {
            if old(self).game_state == GameState::Ready && state == ButtonState::Release && button
                == MouseButton::Left {
                assert(init_post(pre_field, old(self).field.size, cell));
                assert(button_action_post(pre_field, self.field, button, state, cell, both, r));
            } else {
                assert(pre_field == old(self).field);
            }
            if self.game_state == GameState::Ready {
                lemma_count_zero_inverse(pre_field.cells@, opened_pred());
                crate::game::lemma_idx_bounds(pre_field.size, cell);
                assert(pre_field.cell(cell).state != CellState::Opened);
                assert(!chord_applies(pre_field, cell));
            }
            if state == ButtonState::Release && button == MouseButton::Left && old(self).game_state == GameState::Ready {
                // the first click landed on the freshly placed grid: its cell
                // is closed and, by the placement rule, hides no mine
                assert(pre_field.cell(cell).state == CellState::Closed);
                assert(!chord_applies(pre_field, cell));
                assert(pre_field.cell(cell).content != CellContent::Mine);
                assert(r != CellInteractionResult::Exploded);
            }
            if state == ButtonState::Release && button == MouseButton::Left {
                assert(r != CellInteractionResult::Flagged && r
                    != CellInteractionResult::Unflagged);
            }
        }
        r
    }

    /// Translate one already-resolved input event into field and menu
    /// updates and drive the state machine: the menu's new-game button
    /// resets to `Ready` from anywhere; a field event is handled only while
    /// `Ready` or `Playing`; `Exploded` loses the game, a flag toggle
    /// updates the mine counter, and an `Opened` result wins the game
    /// exactly when no safe cell is left.
    pub fn button_action(&mut self, input: GameInput) -> (r: CellInteractionResult)
        requires
            old(self).wf(),
            input matches GameInput::FieldAction { cell, .. } ==> old(self).field.size.contains(
                cell,
            ),
        ensures
            final(self).wf(),
            final(self).field.size == old(self).field.size,
            input == GameInput::MenuAction(MenuButtonPressResult::NewGame) ==> final(self).game_state == GameState::Ready && final(self).field.opened == 0 && final(self).field.flags == 0 && count_mines(final(self).field.cells@) == 0 && r
                == CellInteractionResult::NoAction,
            input == GameInput::MenuAction(MenuButtonPressResult::NoAction) ==> same_game(
                *old(self),
                *final(self),
            ) && r == CellInteractionResult::NoAction,
            input matches GameInput::FieldAction { .. } && (old(self).game_state == GameState::Win
                || old(self).game_state == GameState::Loose) ==> same_game(
                *old(self),
                *final(self),
            ) && r == CellInteractionResult::NoAction,
            r == CellInteractionResult::Exploded ==> final(self).game_state == GameState::Loose
                && !final(self).both_buttons_flag && !final(self).timer_running,
            r == CellInteractionResult::Opened ==> (final(self).game_state == GameState::Win
                <==> final(self).field.opened == final(self).field.size.area() - final(self).field.size.mines) && (final(self).game_state == GameState::Win || final(self).game_state == GameState::Playing) && !final(self).both_buttons_flag,
            r == CellInteractionResult::Flagged || r == CellInteractionResult::Unflagged ==> final(self).game_state == old(self).game_state && final(self).menu_mines == final(self).field.size.mines - final(self).field.flags,
            old(self).game_state == GameState::Ready && (input matches GameInput::FieldAction {
                button: MouseButton::Left,
                state: ButtonState::Release,
                ..
            }) ==> final(self).game_state == GameState::Playing || final(self).game_state
                == GameState::Win,
            final(self).game_state == GameState::Loose ==> old(self).game_state == GameState::Loose
                || r == CellInteractionResult::Exploded,
            (input matches GameInput::FieldAction { .. }) && r == CellInteractionResult::NoAction
                && !starts_play(old(self).game_state, input) ==> same_field(
                old(self).field,
                final(self).field,
            ) && final(self).game_state == old(self).game_state && final(self).menu_mines == old(self).menu_mines && final(self).timer_running == old(self).timer_running,
            input matches GameInput::FieldAction { button, state, cell } ==> ((old(self).game_state == GameState::Ready || old(self).game_state == GameState::Playing)
                && !starts_play(old(self).game_state, input) ==> button_action_post(
                old(self).field,
                final(self).field,
                button,
                state,
                cell,
                chord_seen(old(self).both_buttons_flag, old(self).button_press_counter, state),
                r,
            )),
            input matches GameInput::FieldAction { cell, .. } ==> (starts_play(
                old(self).game_state,
                input,
            ) ==> exists|placed: Field|
                #[trigger] init_post(placed, old(self).field.size, cell) && button_action_post(
                    placed,
                    final(self).field,
                    MouseButton::Left,
                    ButtonState::Release,
                    cell,
                    chord_seen(
                        old(self).both_buttons_flag,
                        old(self).button_press_counter,
                        ButtonState::Release,
                    ),
                    r,
                )),
            input matches GameInput::FieldAction { state, .. } ==> ((old(self).game_state
                == GameState::Ready || old(self).game_state == GameState::Playing) ==> (if final(self).game_state == GameState::Win || final(self).game_state == GameState::Loose {
                final(self).button_press_counter == 0 && !final(self).both_buttons_flag
            } else {
                final(self).button_press_counter == counter_after(
                    old(self).button_press_counter,
                    state,
                ) && final(self).both_buttons_flag == (latch_after(
                    old(self).both_buttons_flag,
                    old(self).button_press_counter,
                    state,
                ) && r != CellInteractionResult::Opened)
            })),
    {
        match input {
            GameInput::MenuAction(menu_result) => {
                match menu_result {
                    MenuButtonPressResult::NewGame => {
                        self.switch_state(GameState::Ready);
                    },
                    MenuButtonPressResult::NoAction => {},
                }
                CellInteractionResult::NoAction
            },
            GameInput::FieldAction { button, state, cell } => {
                if self.game_state == GameState::Ready || self.game_state == GameState::Playing {
                    let result = self.button_action_field(button, state, cell);
                    let ghost mid = *self;
                    match result {
                        CellInteractionResult::Exploded => {
                            self.switch_state(GameState::Loose);
                            self.both_buttons_flag = false;
                        },
                        CellInteractionResult::Flagged | CellInteractionResult::Unflagged => {
                            let mines = self.field.mines();
                            let flags = self.field.flags();
                            self.menu_mines = (mines as i64) - (flags as i64);
                        },
                        CellInteractionResult::Opened => {
                            self.both_buttons_flag = false;
                            proof {
                                lemma_safe_open_bound(self.field);
                            }
                            if self.field.cells_left() == 0 {
                                self.switch_state(GameState::Win);
                            }
                        },
                        _ => {},
                    }
                    proof {
                        assert(self.field == mid.field);
                        if old(self).game_state == GameState::Ready && state
                            == ButtonState::Release && button == MouseButton::Left {
                            let placed = choose|placed: Field|
                                #[trigger] init_post(placed, old(self).field.size, cell)
                                    && button_action_post(
                                    placed,
                                    mid.field,
                                    button,
                                    state,
                                    cell,
                                    chord_seen(
                                        old(self).both_buttons_flag,
                                        old(self).button_press_counter,
                                        state,
                                    ),
                                    result,
                                );
                            assert(init_post(placed, old(self).field.size, cell)
                                && button_action_post(
                                placed,
                                self.field,
                                button,
                                state,
                                cell,
                                chord_seen(
                                    old(self).both_buttons_flag,
                                    old(self).button_press_counter,
                                    state,
                                ),
                                result,
                            ));
                        }
                    }
                    result
                } else {
                    CellInteractionResult::NoAction
                }
            },
        }
    }
}

} // verus!
