use vstd::prelude::*;

verus! {

/// Who controls a symbol during a game.
#[derive(Clone, Copy, PartialEq, Eq, Structural, Debug)]
pub enum Player {
    Human,
    Bot,
}

/// A player's mark.
#[derive(Clone, Copy, PartialEq, Eq, Structural, Debug)]
pub enum Symbol {
    X,
    O,
}

/// One grid position: empty, or holding a mark.
#[derive(Clone, Copy, PartialEq, Eq, Structural, Debug)]
pub enum Cell {
    Empty,
    Occupied(Symbol),
}

/// Where a game stands between turns.
#[derive(Clone, Copy, PartialEq, Eq, Structural, Debug)]
pub enum GameState {
    Playing(Symbol),
    Won(Symbol),
    Draw,
}

/// The mark that plays against `s`.
pub open spec fn other_spec(s: Symbol) -> Symbol {
    match s {
        Symbol::X => Symbol::O,
        Symbol::O => Symbol::X,
    }
}

impl Symbol {
    /// The opposing mark.
    pub fn other(self) -> (r: Symbol)
        ensures
            r == other_spec(self),
            r != self,
    {
        match self {
            Symbol::X => Symbol::O,
            Symbol::O => Symbol::X,
        }
    }
}

} // verus!
