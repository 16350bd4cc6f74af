//! The game around the grid: what each input does to it, and when the game
//! is over.

pub mod matrix;

use vstd::prelude::*;
use crate::game::matrix::{Matrix, MatrixTrait};
use crate::grid::lemma_stored_fits;
use crate::model::{grid_fits, is_full, is_terminal, shift_grid, spawned, zeros, Direction};

verus! {

/// Whether the game goes on.
#[derive(Clone, Copy, Debug, PartialEq, Eq, Structural)]
pub enum State {
    Running,
    GameOver,
}

/// A key of the keyboard, as far as the game tells keys apart.
#[derive(Clone, Copy, Debug, PartialEq, Eq, Structural)]
pub enum Key {
    Left,
    Right,
    Up,
    Down,
    Esc,
    Char(char),
    Other,
}

/// The modifier keys held down with a key, as far as the game tells them
/// apart: none, the control key alone, or anything else.
#[derive(Clone, Copy, Debug, PartialEq, Eq, Structural)]
pub enum Modifiers {
    Plain,
    Control,
    Other,
}

/// An event of the terminal.
#[derive(Clone, Copy, Debug, PartialEq, Eq, Structural)]
pub enum Event {
    FocusGained,
    FocusLost,
    Key { code: Key, modifiers: Modifiers },
    Mouse,
    Paste,
    Resize,
}

/// What an event asks of the game.
#[derive(Clone, Copy, Debug, PartialEq, Eq, Structural)]
pub enum Command {
    /// Move the tiles in a direction.
    Move(Direction),
    /// End the game.
    Quit,
    /// Draw the grid again.
    Redraw,
    /// Nothing.
    Nothing,
}

impl Event {
    /// What the event asks of the game: an arrow key alone moves the tiles;
    /// `q` or the escape key alone, and `c` or `d` with the control key, end
    /// the game; a new size of the terminal asks for a new drawing; all else
    /// asks for nothing.
    pub open spec fn spec_command(self) -> Command {
        match self {
            Event::Key { code, modifiers: Modifiers::Plain } => match code {
                Key::Left => Command::Move(Direction::Left),
                Key::Right => Command::Move(Direction::Right),
                Key::Up => Command::Move(Direction::Up),
                Key::Down => Command::Move(Direction::Down),
                Key::Esc => Command::Quit,
                Key::Char(c) => if c == 'q' {
                    Command::Quit
                } else {
                    Command::Nothing
                },
                Key::Other => Command::Nothing,
            },
            Event::Key { code, modifiers: Modifiers::Control } => match code {
                Key::Char(c) => if c == 'c' || c == 'd' {
                    Command::Quit
                } else {
                    Command::Nothing
                },
                _ => Command::Nothing,
            },
            Event::Resize => Command::Redraw,
            _ => Command::Nothing,
        }
    }

    /// What the event asks of the game.
    #[verifier::when_used_as_spec(spec_command)]
    pub fn command(self) -> (command: Command)
        ensures
            command == self.spec_command(),
    {
        match self {
            Event::FocusGained => Command::Nothing,
            Event::FocusLost => Command::Nothing,
            Event::Key { code, modifiers } => match modifiers {
                Modifiers::Plain => match code {
                    Key::Left => Command::Move(Direction::Left),
                    Key::Right => Command::Move(Direction::Right),
                    Key::Up => Command::Move(Direction::Up),
                    Key::Down => Command::Move(Direction::Down),
                    Key::Char(c) => if c == 'q' {
                        Command::Quit
                    } else {
                        Command::Nothing
                    },
                    Key::Esc => Command::Quit,
                    Key::Other => Command::Nothing,
                },
                Modifiers::Control => match code {
                    Key::Char(c) => if c == 'c' || c == 'd' {
                        Command::Quit
                    } else {
                        Command::Nothing
                    },
                    _ => Command::Nothing,
                },
                Modifiers::Other => Command::Nothing,
            },
            Event::Mouse => Command::Nothing,
            Event::Paste => Command::Nothing,
            Event::Resize => Command::Redraw,
        }
    }
}

/// The grid that an event asks for: the grid after the move, where the
/// event asks for a move, else the grid as it is.
pub open spec fn target(g: Seq<Seq<nat>>, event: Event) -> Seq<Seq<nat>> {
    match event.spec_command() {
        Command::Move(dir) => shift_grid(g, dir),
        _ => g,
    }
}

/// Whether a game with grid `g` that has handled `event` may have the grid
/// `after`, be over or not as `over_after` says, and ask for a new drawing
/// or not as `redraw` says.
///
/// Where the event moves a tile, a new tile is spawned, the grid is drawn
/// again, and the game goes on if it did. Where it moves none, the grid
/// stays; the game is over if it was, if the event asks to end it, or if no
/// move is left; and the grid is drawn again only if the event asks for it.
pub open spec fn handled(
    g: Seq<Seq<nat>>,
    over: bool,
    event: Event,
    after: Seq<Seq<nat>>,
    over_after: bool,
    redraw: bool,
) -> bool {
    if target(g, event) != g {
        &&& spawned(target(g, event), after)
        &&& over_after == over
        &&& redraw
    } else {
        &&& after == g
        &&& over_after == (over || event.spec_command() == Command::Quit || is_terminal(g))
        &&& redraw == (event.spec_command() == Command::Redraw)
    }
}

/// A game: its grid, and whether it goes on.
#[derive(Debug)]
pub struct Game {
    matrix: Matrix,
    pub state: State,
}

impl View for Game {
    type V = Seq<Seq<nat>>;

    /// The grid of the game as rows of numbers.
    closed spec fn view(&self) -> Seq<Seq<nat>> {
        self.matrix@
    }
}

impl Game {
    /// A running game with the empty grid of four rows and four columns.
    pub fn new() -> (game: Self)
        ensures
            game.wf(),
            !game.over(),
            game@ == Seq::new(4, |i: int| zeros(4)),
    {
        Self { matrix: Matrix::default(), state: State::Running }
    }

    /// A running game on the given grid.
    pub fn from_matrix(matrix: Matrix) -> (game: Self)
        requires
            matrix.wf(),
            !matrix.changed,
        ensures
            game.wf(),
            !game.over(),
            game@ == matrix@,
    {
        Self { matrix, state: State::Running }
    }

    /// The grid of the game.
    pub fn matrix(&self) -> (matrix: &Matrix)
        ensures
            matrix@ == self@,
            self.wf() ==> matrix.wf() && !matrix.changed,
    {
        &self.matrix
    }

    /// Whether the game is over.
    pub fn is_over(&self) -> (over: bool)
        ensures
            over == self.over(),
    {
        self.state == State::GameOver
    }

    /// Whether the game can handle `event`: the move that the event asks
    /// for, if it asks for one, makes no tile larger than a cell can hold.
    /// `handle_input` may be called exactly when this is `true`.
    pub fn accepts(&self, event: Event) -> (ok: bool)
        requires
            self.wf(),
        ensures
            ok == grid_fits(target(self@, event)),
    {
        match event.command() {
            Command::Move(dir) => self.matrix.can_shift(dir),
            _ => {
                proof {
                    lemma_stored_fits(self.matrix.data@);
                }
                true
            },
        }
    }
}

/// The steps of a game, as far as they decide anything: drawing and reading
/// the keyboard are left to the caller, who hands in each event and learns
/// whether to draw.
pub trait Playable: View<V = Seq<Seq<nat>>> {
    /// Whether the game is in a state from which it can be played.
    spec fn wf(&self) -> bool;

    /// Whether the game is over.
    spec fn over(&self) -> bool;

    /// Starts the game: spawns the first tile.
    fn init(&mut self)
        requires
            old(self).wf(),
            !is_full(old(self)@),
        ensures
            final(self).wf(),
            final(self).over() == old(self).over(),
            spawned(old(self)@, final(self)@),
    ;

    /// Spawns a tile.
    fn update(&mut self)
        requires
            old(self).wf(),
            !is_full(old(self)@),
        ensures
            final(self).wf(),
            final(self).over() == old(self).over(),
            spawned(old(self)@, final(self)@),
    ;

    /// Handles one event, and tells whether the grid is to be drawn again.
    fn handle_input(&mut self, event: Event) -> (redraw: bool)
        requires
            old(self).wf(),
            grid_fits(target(old(self)@, event)),
        ensures
            final(self).wf(),
            handled(old(self)@, old(self).over(), event, final(self)@, final(self).over(), redraw),
    ;

    /// Where to put the upper left corner of the drawing, as column and row,
    /// so that it stands in the middle of a terminal of `columns` columns
    /// and `rows` rows.
    fn draw(&self, columns: u16, rows: u16) -> (origin: (u16, u16))
        requires
            self.wf(),
            6 * self@.len() + 1 <= u16::MAX,
            columns / 2 >= (6 * self@.len() + 1) / 2,
            rows / 2 >= (2 * self@.len() + 1) / 2,
        ensures
            origin.0 == columns / 2 - (6 * self@.len() + 1) / 2,
            origin.1 == rows / 2 - (2 * self@.len() + 1) / 2,
    ;
}

impl Playable for Game {
    closed spec fn wf(&self) -> bool {
        self.matrix.wf() && !self.matrix.changed
    }

    closed spec fn over(&self) -> bool {
        self.state == State::GameOver
    }

    fn init(&mut self) {
        self.update();
    }

    fn update(&mut self) {
        self.matrix.spawn_number();
    }

    fn handle_input(&mut self, event: Event) -> (redraw: bool) {
        let mut redraw = false;
        match event.command() {
            Command::Move(dir) => {
                self.matrix.shift(dir);
            },
            Command::Quit => {
                self.state = State::GameOver;
            },
            Command::Redraw => {
                redraw = true;
            },
            Command::Nothing => {},
        }

        if self.matrix.changed {
            self.matrix.changed = false;
            self.update();
            redraw = true;
        } else if self.matrix.has_no_moves() {
            self.state = State::GameOver;
        }
        redraw
    }

    fn draw(&self, columns: u16, rows: u16) -> (origin: (u16, u16)) {
        let (width, tall) = self.matrix.get_width_on_draw();
        let (width, tall) = (width as u16, tall as u16);
        (columns / 2 - width / 2, rows / 2 - tall / 2)
    }
}

} // verus!
