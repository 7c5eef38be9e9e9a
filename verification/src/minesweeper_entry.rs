use vstd::prelude::*;

verus! {

/// The Minesweeper entry of the game collection, with a line of text as its state.
pub struct MinesweeperGame {
    pub state: String,
}

impl MinesweeperGame {
    pub fn new() -> (r: Self)
        ensures
            r.state@ == "Initial Minesweeper State"@,
    {
        MinesweeperGame { state: String::from_str("Initial Minesweeper State") }
    }

    /// The move button was pressed.
    pub fn make_move(&mut self)
        ensures
            final(self).state@ == "Minesweeper move: e4"@,
    {
        self.state = String::from_str("Minesweeper move: e4");
    }
}

} // verus!
