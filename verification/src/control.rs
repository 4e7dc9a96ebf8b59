//! What the application does with the keys it is given: one key advances the
//! board by a generation, another asks to leave.

use vstd::prelude::*;
use crate::board::Board;
use crate::grid::Grid;

verus! {

/// The key that an event is about, as far as the application tells keys
/// apart.
#[derive(Clone, Copy, PartialEq, Eq, Structural, Debug)]
pub enum KeyCode {
    /// A key that stands for a character.
    Char(char),
    /// Any other key.
    Other,
}

/// What happened to a key.
#[derive(Clone, Copy, PartialEq, Eq, Structural, Debug)]
pub enum KeyEventKind {
    Press,
    Repeat,
    Release,
}

/// A key and what happened to it.
#[derive(Clone, Copy, PartialEq, Eq, Structural, Debug)]
pub struct KeyEvent {
    pub code: KeyCode,
    pub kind: KeyEventKind,
}

/// Something the terminal reported.
#[derive(Clone, Copy, PartialEq, Eq, Structural, Debug)]
pub enum Event {
    Key(KeyEvent),
    /// Anything that is not about a key.
    Other,
}

/// The running application: the board on show, and whether the user has
/// asked to leave.
pub struct App {
    pub board: Board,
    pub exit: bool,
}

impl App {
    /// What `key_event` does to an application that shows `board`: `a`
    /// advances it by a generation, every other key leaves it alone.
    pub open spec fn board_after(board: Grid, key_event: KeyEvent) -> Grid {
        if key_event.code == KeyCode::Char('a') {
            board.next_state()
        } else {
            board
        }
    }

    /// Whether the application is to leave after `key_event`, given whether
    /// it was to leave before: `q` asks to leave, and nothing takes that
    /// back.
    pub open spec fn exit_after(exit: bool, key_event: KeyEvent) -> bool {
        exit || key_event.code == KeyCode::Char('q')
    }

    /// Whether the application reacts to `event` at all: it does to a key
    /// going down, and to nothing else.
    pub open spec fn key_pressed(event: Event) -> Option<KeyEvent> {
        match event {
            Event::Key(key_event) => if key_event.kind == KeyEventKind::Press {
                Some(key_event)
            } else {
                None
            },
            Event::Other => None,
        }
    }

    /// Takes in one event: a key going down is handled as a key, anything
    /// else changes nothing.
    pub fn handle_events(&mut self, event: Event)
        ensures
            final(self).board@ == match Self::key_pressed(event) {
                Some(key_event) => Self::board_after(old(self).board@, key_event),
                None => old(self).board@,
            },
            final(self).exit == match Self::key_pressed(event) {
                Some(key_event) => Self::exit_after(old(self).exit, key_event),
                None => old(self).exit,
            },
    {
        if let Event::Key(key_event) = event {
            if key_event.kind == KeyEventKind::Press {
                self.handle_key_event(key_event)
            }
        }
    }

    /// Reacts to a key: `q` asks to leave, `a` advances the board by one
    /// generation, any other key does nothing.
    pub fn handle_key_event(&mut self, key_event: KeyEvent)
        ensures
            final(self).board@ == Self::board_after(old(self).board@, key_event),
            final(self).exit == Self::exit_after(old(self).exit, key_event),
    {
        match key_event.code {
            KeyCode::Char('q') => self.exit(),
            KeyCode::Char('a') => self.board.get_next_state(),
            _ => {},
        }
    }

    /// Asks to leave.
    pub fn exit(&mut self)
        ensures
            final(self).exit,
            final(self).board@ == old(self).board@,
    {
        self.exit = true;
    }

    /// An application that shows a board of twenty columns and ten rows on
    /// which nothing lives, and that has not been asked to leave.
    pub fn default() -> (app: App)
        ensures
            app.board@ == Grid::dead(20, 10),
            !app.exit,
    {
        let default_starting_board = Board::new(20, 10);
        App { board: default_starting_board.unwrap(), exit: false }
    }
}

} // verus!
