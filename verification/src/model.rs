use vstd::prelude::*;
use crate::rng::weighted_pair_index;

verus! {

/// An early, minimal model of the engine: a bare 4x4 grid of plain values,
/// row-major, where 0 marks an empty slot.
pub struct Game {
    pub board: Vec<u32>,
}

impl Game {
    /// A new game board in a ready-to-play state: every slot empty.
    pub fn new() -> (r: Game)
        ensures
            r.board@.len() == 16,
            forall|i: int| 0 <= i < 16 ==> r.board@[i] == 0,
    {
        let mut board: Vec<u32> = Vec::new();
        let mut i: usize = 0;
        while i < 16
            invariant
                board@.len() == i,
                i <= 16,
                forall|n: int| 0 <= n < i ==> board@[n] == 0,
            decreases 16 - i,
        {
            board.push(0);
            i = i + 1;
        }
        Game { board }
    }

    /// Draws a new tile value: 2 or 4, with 2 four times as likely.
    pub fn generate_tile() -> (r: u32)
        ensures
            r == 2 || r == 4,
    {
        let choices: [u32; 2] = [2, 4];
        let idx = weighted_pair_index(4, 1);
        choices[idx]
    }
}

} // verus!
