use vstd::prelude::*;
use crate::colors::{background_chars, text_chars, is_pow2};
use crate::line::{
    bview, board_ids_distinct, Direction, cell_at, cell_row, cell_col, line_of, pos_of,
    tile_views, extract_line_spec, extract_upto, extract_sourced, merge_fold, line_acc,
    line_changed, spec_moved, move_board, moved_cell, adjust, spec_gain, spec_removed, spec_won,
    count_line, sum_values, has_tid, distinct_ids, good_tile, lemma_cell_at,
    lemma_cell_inverse, lemma_fold_basic, lemma_fold_tiles, lemma_fold_ids, lemma_extract_props,
    lemma_full_line_unchanged,
};
use crate::line::{lemma_sum_values_nonneg, extract_line, merge_line, write_line, merge_step};
use crate::rng::{weighted_pair_index, choose_coord};
use vstd::string::StrSliceExecFns;
use crate::tile::{Tile, TileView, no_chain, tile_ok, clone_tile};

verus! {

/// The side length of the square board.
pub const BOARD_DIMENSION: usize = 4;

/// The number of board slots.
pub const NUM_TILES: usize = 16;

/// The number of tile ids in the pool: one more than the board can hold, so
/// that the tile spawned after a move never reuses an id freed by that same
/// move's merges.
pub const NUM_IDS: usize = 17;

/// The choices for new tiles and the relative weights with which they appear.
#[derive(PartialEq)]
pub struct NewTileParams {
    pub tile_choices: [u32; 2],
    pub tile_weights: [u8; 2],
}

impl NewTileParams {
    /// Index of the parameters of 2-tiles in `tile_choices` and `tile_weights`.
    pub const TWO: usize = 0;

    /// Index of the parameters of 4-tiles in `tile_choices` and `tile_weights`.
    pub const FOUR: usize = 1;

    /// The default settings: 2-tiles outnumber 4-tiles at a 4:1 ratio.
    pub fn new() -> (r: NewTileParams)
        ensures
            params_standard(r),
    {
        NewTileParams { tile_choices: [2, 4], tile_weights: [4, 1] }
    }
}

/// The fixed spawn table of this engine: values 2 and 4 at weights 4 and 1.
pub open spec fn params_standard(p: NewTileParams) -> bool {
    &&& p.tile_choices[0] == 2
    &&& p.tile_choices[1] == 4
    &&& p.tile_weights[0] == 4
    &&& p.tile_weights[1] == 1
}

/// The recoverable error: the requested move would not change the board.
pub struct InvalidMove;

/// What a move returns: on success, the new tile's id, a snapshot of all live
/// tiles, and whether this move won the game; otherwise `InvalidMove`.
pub enum InputResult {
    Moved(usize, Vec<Tile>, bool),
    Rejected(InvalidMove),
}

/// The engine: a 4x4 board of optional tiles (row-major), the spawn table,
/// the free-slot cache recomputed on demand, the score, the id pool, and
/// whether the winning value has been reached before.
#[derive(PartialEq)]
pub struct Game {
    pub board: Vec<Option<Tile>>,
    pub new_tile_params: NewTileParams,
    pub free_slots: Vec<(usize, usize)>,
    pub score: u32,
    pub id_list: Vec<usize>,
    pub game_won: bool,
}

/// How many of the first `n` board slots are occupied.
pub open spec fn count_some(b: Seq<Option<TileView>>, n: int) -> int
    decreases n,
{
    if n <= 0 {
        0
    } else {
        count_some(b, n - 1) + (if b[n - 1] is Some {
            1int
        } else {
            0int
        })
    }
}

/// The sum of the values of the first `n` board slots.
pub open spec fn vsum(b: Seq<Option<TileView>>, n: int) -> int
    decreases n,
{
    if n <= 0 {
        0
    } else {
        vsum(b, n - 1) + (match b[n - 1] {
            Some(t) => t.value as int,
            None => 0int,
        })
    }
}

/// Whether the id `x` belongs to a live tile of the board.
pub open spec fn live_id(b: Seq<Option<TileView>>, x: usize) -> bool {
    exists|i: int| 0 <= i < b.len() && b[i] is Some && (#[trigger] b[i])->0.id == x
}

/// Every live tile is well formed at its slot: its coordinates match the
/// slot, its value is a power of two of at least 2, and its colors are the
/// ones derived from its value.
pub open spec fn cells_ok(b: Seq<Option<TileView>>) -> bool {
    forall|i: int|
        0 <= i < 16 ==> match #[trigger] b[i] {
            Some(t) => tile_ok(t, i / 4, i % 4),
            None => true,
        }
}

/// No consumed-tile snapshot nests another one.
pub open spec fn chains_ok(b: Seq<Option<Tile>>) -> bool {
    forall|i: int|
        0 <= i < b.len() ==> match #[trigger] b[i] {
            Some(t) => no_chain(&t),
            None => true,
        }
}

/// Every live tile's value is at most `cap`.
pub open spec fn values_bounded(b: Seq<Option<TileView>>, cap: int) -> bool {
    forall|i: int|
        0 <= i < b.len() ==> match #[trigger] b[i] {
            Some(t) => t.value <= cap,
            None => true,
        }
}

impl Game {
    /// The first tile value whose creation by a merge wins the game.
    pub const WINNING_TILE: u32 = 2048;

    /// The id pool and the live tiles together hold each id at most once, and
    /// together account for all 17 ids.
    #[verifier::opaque]
    pub open spec fn pool_ok(&self) -> bool {
        &&& forall|i: int, j: int|
            0 <= i < j < self.id_list@.len() ==> self.id_list@[i] != self.id_list@[j]
        &&& forall|i: int|
            0 <= i < self.id_list@.len() ==> (#[trigger] self.id_list@[i]) < 17 && !live_id(
                bview(self.board@),
                self.id_list@[i],
            )
        &&& forall|i: int|
            0 <= i < 16 ==> match #[trigger] bview(self.board@)[i] {
                Some(t) => t.id < 17,
                None => true,
            }
        &&& self.id_list@.len() + count_some(bview(self.board@), 16) == 17
    }

    /// The engine's invariant: a 16-slot board of well-formed tiles with
    /// pairwise distinct ids, no nested snapshots, the standard spawn table,
    /// and a consistent id pool.
    pub open spec fn wf(&self) -> bool {
        &&& self.board@.len() == 16
        &&& cells_ok(bview(self.board@))
        &&& chains_ok(self.board@)
        &&& board_ids_distinct(bview(self.board@))
        &&& params_standard(self.new_tile_params)
        &&& self.pool_ok()
    }

    /// Returns the next available id, the one that has been in the pool the
    /// longest. Returns `None` only if the pool is empty, which the invariant
    /// makes unreachable.
    pub fn get_id(&mut self) -> (r: Option<usize>)
        ensures
            final(self).board == old(self).board,
            final(self).new_tile_params == old(self).new_tile_params,
            final(self).free_slots == old(self).free_slots,
            final(self).score == old(self).score,
            final(self).game_won == old(self).game_won,
            match r {
                Some(x) => old(self).id_list@.len() > 0 && x == old(self).id_list@[0]
                    && final(self).id_list@ == old(self).id_list@.subrange(
                    1,
                    old(self).id_list@.len() as int,
                ),
                None => old(self).id_list@.len() == 0 && final(self).id_list == old(self).id_list,
            },
    {
        if self.id_list.len() == 0 {
            None
        } else {
            let x = self.id_list.remove(0);
            proof {
                assert(final(self).id_list@ =~= old(self).id_list@.subrange(
                    1,
                    old(self).id_list@.len() as int,
                ));
            }
            Some(x)
        }
    }

    /// Appends freed ids to the back of the pool, preserving first-in
    /// first-out reuse order.
    pub fn recycle_ids(&mut self, ids: Vec<usize>)
        ensures
            final(self).board == old(self).board,
            final(self).new_tile_params == old(self).new_tile_params,
            final(self).free_slots == old(self).free_slots,
            final(self).score == old(self).score,
            final(self).game_won == old(self).game_won,
            final(self).id_list@ == old(self).id_list@ + ids@,
    {
        let mut i: usize = 0;
        while i < ids.len()
            invariant
                i <= ids@.len(),
                self.board == old(self).board,
                self.new_tile_params == old(self).new_tile_params,
                self.free_slots == old(self).free_slots,
                self.score == old(self).score,
                self.game_won == old(self).game_won,
                self.id_list@ == old(self).id_list@ + ids@.take(i as int),
            decreases ids@.len() - i,
        {
            self.id_list.push(ids[i]);
            proof {
                assert(old(self).id_list@ + ids@.take(i as int + 1) =~= (old(self).id_list@
                    + ids@.take(i as int)).push(ids@[i as int]));
            }
            i = i + 1;
        }
        proof {
            assert(ids@.take(ids@.len() as int) =~= ids@);
        }
    }

    /// Draws a new tile value from the weighted spawn table: 2 or 4, with 2
    /// four times as likely.
    pub fn generate_tile_value(&self) -> (r: u32)
        requires
            params_standard(self.new_tile_params),
        ensures
            r == 2 || r == 4,
    {
        let idx = weighted_pair_index(self.new_tile_params.tile_weights[0], self.new_tile_params.tile_weights[1]);
        self.new_tile_params.tile_choices[idx]
    }

    /// The deterministic (background, text) color pair of a tile value; see
    /// `crate::colors::tile_colors`.
    pub fn get_tile_colors(&self, tile_value: u32) -> (r: (String, String))
        requires
            tile_value >= 2,
        ensures
            r.0@ == background_chars(tile_value),
            r.1@ == text_chars(tile_value),
    {
        crate::colors::tile_colors(tile_value)
    }
}

/// The free slots of the first `n` board cells, as (row, col) pairs in
/// row-major order.
pub open spec fn free_upto(b: Seq<Option<Tile>>, n: int) -> Seq<(usize, usize)>
    decreases n,
{
    if n <= 0 {
        Seq::empty()
    } else {
        free_upto(b, n - 1) + (if b[n - 1] is None {
            seq![(((n - 1) / 4) as usize, ((n - 1) % 4) as usize)]
        } else {
            Seq::empty()
        })
    }
}

/// Where the free-slot list points: each entry is an empty cell in range, and
/// the list's length accounts for every empty cell.
pub proof fn lemma_free_upto(b: Seq<Option<Tile>>, n: int)
    requires
        0 <= n <= b.len(),
        b.len() == 16,
    ensures
        free_upto(b, n).len() + count_some(bview(b), n) == n,
        forall|idx: int|
            0 <= idx < free_upto(b, n).len() ==> (#[trigger] free_upto(b, n)[idx]).0 < 4 && free_upto(
                b,
                n,
            )[idx].1 < 4 && b[free_upto(b, n)[idx].0 as int * 4 + free_upto(b, n)[idx].1 as int]
                is None,
    decreases n,
{
    if n > 0 {
        lemma_free_upto(b, n - 1);
        let prev = free_upto(b, n - 1);
        let cur = free_upto(b, n);
        assert(bview(b)[n - 1] is Some <==> b[n - 1] is Some);
        if b[n - 1] is None {
            assert(cur =~= prev.push((((n - 1) / 4) as usize, ((n - 1) % 4) as usize)));
            assert forall|idx: int| 0 <= idx < cur.len() implies (#[trigger] cur[idx]).0 < 4
                && cur[idx].1 < 4 && b[cur[idx].0 as int * 4 + cur[idx].1 as int] is None by {
                if idx < cur.len() - 1 {
                    assert(cur[idx] == prev[idx]);
                } else {
                    assert(cur[idx] == (((n - 1) / 4) as usize, ((n - 1) % 4) as usize));
                    assert(((n - 1) / 4) * 4 + ((n - 1) % 4) == n - 1);
                }
            }
        } else {
            assert(cur =~= prev);
        }
    }
}

impl Game {
    /// Recomputes the list of free slots from the live board.
    pub fn update_free_slots(&mut self)
        requires
            old(self).board@.len() == 16,
        ensures
            final(self).board == old(self).board,
            final(self).new_tile_params == old(self).new_tile_params,
            final(self).score == old(self).score,
            final(self).id_list == old(self).id_list,
            final(self).game_won == old(self).game_won,
            final(self).free_slots@ == free_upto(old(self).board@, 16),
    {
        self.free_slots.clear();
        let mut i: usize = 0;
        while i < 16
            invariant
                self.board@.len() == 16,
                i <= 16,
                self.board == old(self).board,
                self.new_tile_params == old(self).new_tile_params,
                self.score == old(self).score,
                self.id_list == old(self).id_list,
                self.game_won == old(self).game_won,
                self.free_slots@ == free_upto(old(self).board@, i as int),
            decreases 16 - i,
        {
            if self.board[i].is_none() {
                self.free_slots.push((i / 4, i % 4));
                proof {
                    assert(free_upto(old(self).board@, i as int + 1) =~= free_upto(
                        old(self).board@,
                        i as int,
                    ).push(((i / 4) as usize, (i % 4) as usize)));
                }
            }
            i = i + 1;
        }
    }

    /// Recomputes the free slots and picks one at random; `None` exactly when
    /// the board is full.
    pub fn get_random_free_slot(&mut self) -> (r: Option<(usize, usize)>)
        requires
            old(self).board@.len() == 16,
        ensures
            final(self).board == old(self).board,
            final(self).new_tile_params == old(self).new_tile_params,
            final(self).score == old(self).score,
            final(self).id_list == old(self).id_list,
            final(self).game_won == old(self).game_won,
            final(self).free_slots@ == free_upto(old(self).board@, 16),
            r is None <==> count_some(bview(old(self).board@), 16) == 16,
            match r {
                Some(rc) => rc.0 < 4 && rc.1 < 4 && old(self).board@[rc.0 as int * 4
                    + rc.1 as int] is None,
                None => true,
            },
    {
        self.update_free_slots();
        proof {
            lemma_free_upto(self.board@, 16);
        }
        let r = choose_coord(&self.free_slots);
        proof {
            match r {
                Some(rc) => {
                    assert(self.free_slots@.contains(rc));
                    let w = choose|idx: int|
                        0 <= idx < self.free_slots@.len() && self.free_slots@[idx] == rc;
                },
                None => {},
            }
        }
        r
    }
}

/// The live tiles of the first `n` board slots, in row-major order.
pub open spec fn live_tiles(b: Seq<Option<Tile>>, n: int) -> Seq<Tile>
    decreases n,
{
    if n <= 0 {
        Seq::empty()
    } else {
        live_tiles(b, n - 1) + (match b[n - 1] {
            Some(t) => seq![t],
            None => Seq::empty(),
        })
    }
}

impl Game {
    /// Returns a value-copied snapshot of all live tiles, each exactly once,
    /// in row-major order.
    pub fn get_tiles(&self) -> (r: Vec<Tile>)
        requires
            self.board@.len() == 16,
        ensures
            r@ == live_tiles(self.board@, 16),
    {
        let mut tiles: Vec<Tile> = Vec::new();
        let mut i: usize = 0;
        while i < 16
            invariant
                self.board@.len() == 16,
                i <= 16,
                tiles@ =~= live_tiles(self.board@, i as int),
            decreases 16 - i,
        {
            match &self.board[i] {
                Some(t) => {
                    let copy = clone_tile(t);
                    tiles.push(copy);
                },
                None => {},
            }
            i = i + 1;
        }
        tiles
    }

    /// Discards every tile's consumed-tile snapshot, as happens at the start
    /// of a move resolution.
    pub fn reset_merged_flags(&mut self)
        requires
            old(self).board@.len() == 16,
        ensures
            final(self).board@.len() == 16,
            final(self).new_tile_params == old(self).new_tile_params,
            final(self).free_slots == old(self).free_slots,
            final(self).score == old(self).score,
            final(self).id_list == old(self).id_list,
            final(self).game_won == old(self).game_won,
            forall|i: int|
                0 <= i < 16 ==> match old(self).board@[i] {
                    Some(t) => #[trigger] final(self).board@[i] matches Some(t2) && t2@ == crate::tile::cleared(
                        t@,
                    ) && t2.merged is None,
                    None => final(self).board@[i] is None,
                },
    {
        let mut i: usize = 0;
        while i < 16
            invariant
                self.board@.len() == 16,
                i <= 16,
                self.new_tile_params == old(self).new_tile_params,
                self.free_slots == old(self).free_slots,
                self.score == old(self).score,
                self.id_list == old(self).id_list,
                self.game_won == old(self).game_won,
                forall|n: int|
                    0 <= n < i ==> match old(self).board@[n] {
                        Some(t) => #[trigger] self.board@[n] matches Some(t2) && t2@
                            == crate::tile::cleared(t@) && t2.merged is None,
                        None => self.board@[n] is None,
                    },
                forall|n: int| i <= n < 16 ==> self.board@[n] == old(self).board@[n],
            decreases 16 - i,
        {
            match &self.board[i] {
                Some(t) => {
                    let copy = Tile {
                        value: t.value,
                        id: t.id,
                        background_color: t.background_color.clone(),
                        text_color: t.text_color.clone(),
                        row: t.row,
                        col: t.col,
                        merged: None,
                    };
                    self.board.set(i, Some(copy));
                },
                None => {},
            }
            i = i + 1;
        }
    }
}

pub proof fn lemma_count_le(b: Seq<Option<TileView>>, n: int)
    ensures
        0 <= count_some(b, n) <= (if n >= 0 {
            n
        } else {
            0
        }),
    decreases n,
{
    if n > 0 {
        lemma_count_le(b, n - 1);
    }
}

pub proof fn lemma_count_full(b: Seq<Option<TileView>>, n: int)
    requires
        count_some(b, n) == n,
    ensures
        forall|i: int| 0 <= i < n ==> b[i] is Some,
    decreases n,
{
    if n > 0 {
        lemma_count_le(b, n - 1);
        lemma_count_full(b, n - 1);
    }
}

pub proof fn lemma_count_update(b: Seq<Option<TileView>>, n: int, i: int, c: Option<TileView>)
    requires
        0 <= i < b.len(),
        n <= b.len(),
    ensures
        count_some(b.update(i, c), n) == count_some(b, n) + (if i < n {
            (if c is Some {
                1int
            } else {
                0int
            }) - (if b[i] is Some {
                1int
            } else {
                0int
            })
        } else {
            0int
        }),
    decreases n,
{
    if n > 0 {
        lemma_count_update(b, n - 1, i, c);
    }
}

pub proof fn lemma_vsum_update(b: Seq<Option<TileView>>, n: int, i: int, c: Option<TileView>)
    requires
        0 <= i < b.len(),
        n <= b.len(),
    ensures
        vsum(b.update(i, c), n) == vsum(b, n) + (if i < n {
            (match c {
                Some(t) => t.value as int,
                None => 0int,
            }) - (match b[i] {
                Some(t) => t.value as int,
                None => 0int,
            })
        } else {
            0int
        }),
    decreases n,
{
    if n > 0 {
        lemma_vsum_update(b, n - 1, i, c);
    }
}

/// The value carried by the first `j` cells of line `k`.
pub open spec fn line_vsum(b: Seq<Option<TileView>>, d: Direction, k: int, j: int) -> int
    decreases j,
{
    if j <= 0 {
        0
    } else {
        line_vsum(b, d, k, j - 1) + (match b[cell_at(d, k, j - 1)] {
            Some(t) => t.value as int,
            None => 0int,
        })
    }
}

/// Occupancy of one board slot, as a summand.
pub open spec fn cs(b: Seq<Option<TileView>>, i: int) -> int {
    if b[i] is Some {
        1int
    } else {
        0int
    }
}

/// Value of one board slot, as a summand.
pub open spec fn cv(b: Seq<Option<TileView>>, i: int) -> int {
    match b[i] {
        Some(t) => t.value as int,
        None => 0int,
    }
}

proof fn lemma_count_some_expand(b: Seq<Option<TileView>>)
    requires
        b.len() == 16,
    ensures
        count_some(b, 16) == cs(b, 0) + cs(b, 1) + cs(b, 2) + cs(b, 3) + cs(b, 4) + cs(b, 5) + cs(
            b,
            6,
        ) + cs(b, 7) + cs(b, 8) + cs(b, 9) + cs(b, 10) + cs(b, 11) + cs(b, 12) + cs(b, 13) + cs(
            b,
            14,
        ) + cs(b, 15),
{
    assert(count_some(b, 0) == 0);
    assert(count_some(b, 1) == count_some(b, 0) + cs(b, 0));
    assert(count_some(b, 2) == count_some(b, 1) + cs(b, 1));
    assert(count_some(b, 3) == count_some(b, 2) + cs(b, 2));
    assert(count_some(b, 4) == count_some(b, 3) + cs(b, 3));
    assert(count_some(b, 5) == count_some(b, 4) + cs(b, 4));
    assert(count_some(b, 6) == count_some(b, 5) + cs(b, 5));
    assert(count_some(b, 7) == count_some(b, 6) + cs(b, 6));
    assert(count_some(b, 8) == count_some(b, 7) + cs(b, 7));
    assert(count_some(b, 9) == count_some(b, 8) + cs(b, 8));
    assert(count_some(b, 10) == count_some(b, 9) + cs(b, 9));
    assert(count_some(b, 11) == count_some(b, 10) + cs(b, 10));
    assert(count_some(b, 12) == count_some(b, 11) + cs(b, 11));
    assert(count_some(b, 13) == count_some(b, 12) + cs(b, 12));
    assert(count_some(b, 14) == count_some(b, 13) + cs(b, 13));
    assert(count_some(b, 15) == count_some(b, 14) + cs(b, 14));
    assert(count_some(b, 16) == count_some(b, 15) + cs(b, 15));
}

proof fn lemma_count_line_expand(b: Seq<Option<TileView>>, d: Direction, k: int)
    ensures
        count_line(b, d, k, 4) == cs(b, cell_at(d, k, 0)) + cs(b, cell_at(d, k, 1)) + cs(
            b,
            cell_at(d, k, 2),
        ) + cs(b, cell_at(d, k, 3)),
{
    assert(count_line(b, d, k, 0) == 0);
    assert(count_line(b, d, k, 1) == count_line(b, d, k, 0) + cs(b, cell_at(d, k, 0)));
    assert(count_line(b, d, k, 2) == count_line(b, d, k, 1) + cs(b, cell_at(d, k, 1)));
    assert(count_line(b, d, k, 3) == count_line(b, d, k, 2) + cs(b, cell_at(d, k, 2)));
    assert(count_line(b, d, k, 4) == count_line(b, d, k, 3) + cs(b, cell_at(d, k, 3)));
}

/// The sixteen board cells split exactly into the four lines of any
/// direction: occupancy counts add up.
#[verifier::rlimit(100)]
#[verifier::spinoff_prover]
pub proof fn lemma_count_lines(b: Seq<Option<TileView>>, d: Direction)
    requires
        b.len() == 16,
    ensures
        count_some(b, 16) == count_line(b, d, 0, 4) + count_line(b, d, 1, 4) + count_line(
            b,
            d,
            2,
            4,
        ) + count_line(b, d, 3, 4),
{
    lemma_count_some_expand(b);
    lemma_count_line_expand(b, d, 0);
    lemma_count_line_expand(b, d, 1);
    lemma_count_line_expand(b, d, 2);
    lemma_count_line_expand(b, d, 3);
    match d {
        Direction::Left => {
        },
        Direction::Right => {
        },
        Direction::Up => {
        },
        Direction::Down => {
        },
    }
}

proof fn lemma_vsum_expand(b: Seq<Option<TileView>>)
    requires
        b.len() == 16,
    ensures
        vsum(b, 16) == cv(b, 0) + cv(b, 1) + cv(b, 2) + cv(b, 3) + cv(b, 4) + cv(b, 5) + cv(b, 6)
            + cv(b, 7) + cv(b, 8) + cv(b, 9) + cv(b, 10) + cv(b, 11) + cv(b, 12) + cv(b, 13) + cv(
            b,
            14,
        ) + cv(b, 15),
{
    assert(vsum(b, 0) == 0);
    assert(vsum(b, 1) == vsum(b, 0) + cv(b, 0));
    assert(vsum(b, 2) == vsum(b, 1) + cv(b, 1));
    assert(vsum(b, 3) == vsum(b, 2) + cv(b, 2));
    assert(vsum(b, 4) == vsum(b, 3) + cv(b, 3));
    assert(vsum(b, 5) == vsum(b, 4) + cv(b, 4));
    assert(vsum(b, 6) == vsum(b, 5) + cv(b, 5));
    assert(vsum(b, 7) == vsum(b, 6) + cv(b, 6));
    assert(vsum(b, 8) == vsum(b, 7) + cv(b, 7));
    assert(vsum(b, 9) == vsum(b, 8) + cv(b, 8));
    assert(vsum(b, 10) == vsum(b, 9) + cv(b, 9));
    assert(vsum(b, 11) == vsum(b, 10) + cv(b, 10));
    assert(vsum(b, 12) == vsum(b, 11) + cv(b, 11));
    assert(vsum(b, 13) == vsum(b, 12) + cv(b, 12));
    assert(vsum(b, 14) == vsum(b, 13) + cv(b, 13));
    assert(vsum(b, 15) == vsum(b, 14) + cv(b, 14));
    assert(vsum(b, 16) == vsum(b, 15) + cv(b, 15));
}

proof fn lemma_line_vsum_expand(b: Seq<Option<TileView>>, d: Direction, k: int)
    ensures
        line_vsum(b, d, k, 4) == cv(b, cell_at(d, k, 0)) + cv(b, cell_at(d, k, 1)) + cv(
            b,
            cell_at(d, k, 2),
        ) + cv(b, cell_at(d, k, 3)),
{
    assert(line_vsum(b, d, k, 0) == 0);
    assert(line_vsum(b, d, k, 1) == line_vsum(b, d, k, 0) + cv(b, cell_at(d, k, 0)));
    assert(line_vsum(b, d, k, 2) == line_vsum(b, d, k, 1) + cv(b, cell_at(d, k, 1)));
    assert(line_vsum(b, d, k, 3) == line_vsum(b, d, k, 2) + cv(b, cell_at(d, k, 2)));
    assert(line_vsum(b, d, k, 4) == line_vsum(b, d, k, 3) + cv(b, cell_at(d, k, 3)));
}

/// The sixteen board cells split exactly into the four lines of any
/// direction: tile-value sums add up.
#[verifier::rlimit(100)]
#[verifier::spinoff_prover]
pub proof fn lemma_vsum_lines(b: Seq<Option<TileView>>, d: Direction)
    requires
        b.len() == 16,
    ensures
        vsum(b, 16) == line_vsum(b, d, 0, 4) + line_vsum(b, d, 1, 4) + line_vsum(b, d, 2, 4)
            + line_vsum(b, d, 3, 4),
{
    lemma_vsum_expand(b);
    lemma_line_vsum_expand(b, d, 0);
    lemma_line_vsum_expand(b, d, 1);
    lemma_line_vsum_expand(b, d, 2);
    lemma_line_vsum_expand(b, d, 3);
    match d {
        Direction::Left => {
        },
        Direction::Right => {
        },
        Direction::Up => {
        },
        Direction::Down => {
        },
    }
}

/// Extraction neither loses nor gains value: the extracted tiles of a line
/// carry exactly the value its cells carry.
pub proof fn lemma_extract_vsum(b: Seq<Option<TileView>>, d: Direction, k: int, j: int)
    requires
        b.len() == 16,
        0 <= k < 4,
        0 <= j <= 4,
    ensures
        sum_values(extract_upto(b, d, k, j)) == line_vsum(b, d, k, j),
    decreases j,
{
    if j > 0 {
        lemma_extract_vsum(b, d, k, j - 1);
        match b[cell_at(d, k, j - 1)] {
            Some(t) => {
                let prev = extract_upto(b, d, k, j - 1);
                let cur = extract_upto(b, d, k, j);
                assert(cur.drop_last() =~= prev);
            },
            None => {},
        }
    }
}

/// The cells of line `k` after a move: counts and values match the resolved
/// tiles that were written back.
pub proof fn lemma_move_line_upto(b: Seq<Option<TileView>>, d: Direction, k: int, j: int)
    requires
        b.len() == 16,
        0 <= k < 4,
        0 <= j <= 4,
        line_acc(b, d, k).out.len() <= 4,
    ensures
        count_line(move_board(b, d), d, k, j) == (if j <= line_acc(b, d, k).out.len() {
            j
        } else {
            line_acc(b, d, k).out.len() as int
        }),
        line_vsum(move_board(b, d), d, k, j) == sum_values(
            line_acc(b, d, k).out.take(
                if j <= line_acc(b, d, k).out.len() {
                    j
                } else {
                    line_acc(b, d, k).out.len() as int
                },
            ),
        ),
    decreases j,
{
    let acc = line_acc(b, d, k);
    let mb = move_board(b, d);
    if j > 0 {
        lemma_move_line_upto(b, d, k, j - 1);
        lemma_cell_at(d, k, j - 1);
        let i = cell_at(d, k, j - 1);
        assert(mb[i] == moved_cell(b, d, i));
        assert(line_of(d, i) == k && pos_of(d, i) == j - 1);
        let m = if j <= acc.out.len() {
            j
        } else {
            acc.out.len() as int
        };
        let m1 = if j - 1 <= acc.out.len() {
            j - 1
        } else {
            acc.out.len() as int
        };
        if j - 1 < acc.out.len() {
            assert(mb[i] == Some(adjust(acc.out[j - 1], d, k, j - 1)));
            assert(acc.out.take(m).drop_last() =~= acc.out.take(m1));
            assert(acc.out.take(m).last() == acc.out[j - 1]);
        } else {
            assert(mb[i] is None);
            assert(acc.out.take(m) =~= acc.out.take(m1));
        }
    }
}

/// What the extracted tiles of a line inherit from a well-formed board: they
/// are well formed, bounded like the board's values, and their ids are
/// pairwise distinct ids of that line's cells.
pub proof fn lemma_extract_good(b: Seq<Option<TileView>>, d: Direction, k: int, cap: int)
    requires
        b.len() == 16,
        0 <= k < 4,
        cells_ok(b),
        values_bounded(b, cap),
        board_ids_distinct(b),
    ensures
        forall|i: int|
            0 <= i < extract_line_spec(b, d, k).len() ==> good_tile(
                #[trigger] extract_line_spec(b, d, k)[i],
            ) && extract_line_spec(b, d, k)[i].value <= cap,
        distinct_ids(extract_line_spec(b, d, k)),
        extract_line_spec(b, d, k).len() == count_line(b, d, k, 4),
        extract_line_spec(b, d, k).len() <= 4,
{
    lemma_extract_props(b, d, k, 4);
    let s = extract_line_spec(b, d, k);
    assert forall|i: int| 0 <= i < s.len() implies good_tile(#[trigger] s[i]) && s[i].value
        <= cap by {
        assert(extract_sourced(b, d, k, 4, i));
        let jj = choose|jj: int|
            #![trigger cell_at(d, k, jj)]
            0 <= jj < 4 && b[cell_at(d, k, jj)] is Some && extract_upto(b, d, k, 4)[i] == crate::tile::cleared(
                b[cell_at(d, k, jj)]->0,
            );
        lemma_cell_at(d, k, jj);
        let cell = cell_at(d, k, jj);
        assert(b[cell] is Some);
        assert(tile_ok(b[cell]->0, cell / 4, cell % 4));
        assert(b[cell]->0.value <= cap);
    }
}

pub proof fn lemma_vsum_le(b: Seq<Option<TileView>>, n: int, cap: int)
    requires
        values_bounded(b, cap),
        cap >= 0,
        n <= b.len(),
    ensures
        0 <= vsum(b, n) <= (if n >= 0 {
            n * cap
        } else {
            0
        }),
    decreases n,
{
    if n > 0 {
        lemma_vsum_le(b, n - 1, cap);
        assert((n - 1) * cap + cap == n * cap) by (nonlinear_arith);
    }
}

/// Whether the id `x` belongs to a live tile on line `k`.
pub open spec fn line_live_id(b: Seq<Option<TileView>>, d: Direction, k: int, x: usize) -> bool {
    exists|jj: int|
        #![trigger cell_at(d, k, jj)]
        0 <= jj < 4 && b[cell_at(d, k, jj)] is Some && b[cell_at(d, k, jj)]->0.id == x
}

/// Everything one line's resolution guarantees on a well-formed board:
/// survivors and freed ids account exactly for the line's tiles, values are
/// conserved, survivors stay well formed, ids stay distinct and traceable to
/// the line, and the score gained is bounded by twice the line's value.
pub proof fn lemma_line_pack(b: Seq<Option<TileView>>, d: Direction, k: int)
    requires
        b.len() == 16,
        0 <= k < 4,
        cells_ok(b),
        values_bounded(b, 0x0100_0000),
        board_ids_distinct(b),
    ensures
        line_acc(b, d, k).out.len() + line_acc(b, d, k).removed.len() == count_line(b, d, k, 4),
        line_acc(b, d, k).out.len() <= 4,
        count_line(b, d, k, 4) <= 4,
        forall|i: int|
            0 <= i < line_acc(b, d, k).out.len() ==> good_tile(#[trigger] line_acc(b, d, k).out[i])
                && line_acc(b, d, k).out[i].value <= 0x0400_0000,
        sum_values(line_acc(b, d, k).out) == line_vsum(b, d, k, 4),
        distinct_ids(line_acc(b, d, k).out),
        forall|i: int, j: int|
            0 <= i < j < line_acc(b, d, k).removed.len() ==> line_acc(b, d, k).removed[i]
                != line_acc(b, d, k).removed[j],
        forall|i: int, j: int|
            0 <= i < line_acc(b, d, k).out.len() && 0 <= j < line_acc(b, d, k).removed.len() ==> (
            #[trigger] line_acc(b, d, k).out[i]).id != (#[trigger] line_acc(b, d, k).removed[j]),
        forall|i: int|
            0 <= i < line_acc(b, d, k).out.len() ==> line_live_id(
                b,
                d,
                k,
                (#[trigger] line_acc(b, d, k).out[i]).id,
            ),
        forall|i: int|
            0 <= i < line_acc(b, d, k).removed.len() ==> line_live_id(
                b,
                d,
                k,
                #[trigger] line_acc(b, d, k).removed[i],
            ),
        0 <= line_acc(b, d, k).gain <= 2 * line_vsum(b, d, k, 4),
        line_acc(b, d, k).merged_any <==> line_acc(b, d, k).removed.len() > 0,
{
    reveal(crate::line::line_acc);
    let s = extract_line_spec(b, d, k);
    let acc = line_acc(b, d, k);
    lemma_extract_good(b, d, k, 0x0100_0000);
    assert forall|i: int| 0 <= i < s.len() implies good_tile(#[trigger] s[i]) && s[i].value
        <= 0x0800_0000 by {}
    lemma_fold_basic(s);
    lemma_fold_tiles(s);
    lemma_fold_ids(s);
    lemma_extract_vsum(b, d, k, 4);
    assert forall|i: int| 0 <= i < acc.out.len() implies good_tile(#[trigger] acc.out[i])
        && acc.out[i].value <= 0x0400_0000 by {
        assert(sum_values(s) <= 4 * 0x0100_0000) by {
            lemma_extract_props(b, d, k, 4);
            assert forall|n: int| 0 <= n < s.len() implies (#[trigger] s[n]).value
                <= 0x0100_0000 by {}
            lemma_sum_values_le(s, 0x0100_0000);
        }
        lemma_fold_out_value_le(s);
    }
    // Every id the resolution mentions is the id of a live tile of the line.
    assert forall|i: int| 0 <= i < acc.out.len() implies line_live_id(
        b,
        d,
        k,
        (#[trigger] acc.out[i]).id,
    ) by {
        assert(has_tid(s, acc.out[i].id));
        lemma_has_tid_line(b, d, k, acc.out[i].id);
    }
    assert forall|i: int| 0 <= i < acc.removed.len() implies line_live_id(
        b,
        d,
        k,
        #[trigger] acc.removed[i],
    ) by {
        assert(has_tid(s, acc.removed[i]));
        lemma_has_tid_line(b, d, k, acc.removed[i]);
    }
    assert(0 <= acc.gain <= 2 * line_vsum(b, d, k, 4));
}

/// An id found among a line's extracted tiles is the id of a live tile on
/// that line.
proof fn lemma_has_tid_line(b: Seq<Option<TileView>>, d: Direction, k: int, x: usize)
    requires
        b.len() == 16,
        0 <= k < 4,
        board_ids_distinct(b),
        has_tid(extract_line_spec(b, d, k), x),
    ensures
        line_live_id(b, d, k, x),
{
    let s = extract_line_spec(b, d, k);
    let i = choose|i: int| 0 <= i < s.len() && s[i].id == x;
    lemma_extract_props(b, d, k, 4);
    assert(extract_sourced(b, d, k, 4, i));
    let jj = choose|jj: int|
        #![trigger cell_at(d, k, jj)]
        0 <= jj < 4 && b[cell_at(d, k, jj)] is Some && extract_upto(b, d, k, 4)[i]
            == crate::tile::cleared(b[cell_at(d, k, jj)]->0);
    assert(b[cell_at(d, k, jj)]->0.id == x);
}

proof fn lemma_sum_values_le(s: Seq<TileView>, cap: int)
    requires
        forall|i: int| 0 <= i < s.len() ==> (#[trigger] s[i]).value <= cap,
        cap >= 0,
    ensures
        sum_values(s) <= s.len() * cap,
    decreases s.len(),
{
    if s.len() > 0 {
        assert forall|i: int| 0 <= i < s.drop_last().len() implies (
        #[trigger] s.drop_last()[i]).value <= cap by {
            assert(s.drop_last()[i] == s[i]);
        }
        lemma_sum_values_le(s.drop_last(), cap);
        assert((s.len() - 1) * cap + cap == s.len() * cap) by (nonlinear_arith);
    }
}

/// Each survivor's value is bounded by the line's total value.
#[verifier::rlimit(100)]
#[verifier::spinoff_prover]
proof fn lemma_fold_out_value_le(s: Seq<TileView>)
    requires
        forall|i: int|
            0 <= i < s.len() ==> good_tile(#[trigger] s[i]) && s[i].value <= 0x0800_0000,
    ensures
        forall|i: int|
            0 <= i < merge_fold(s).out.len() ==> (#[trigger] merge_fold(s).out[i]).value as int
                <= sum_values(s),
    decreases s.len(),
{
    if s.len() > 0 {
        assert forall|i: int| 0 <= i < s.drop_last().len() implies good_tile(
            #[trigger] s.drop_last()[i],
        ) && s.drop_last()[i].value <= 0x0800_0000 by {
            assert(s.drop_last()[i] == s[i]);
        }
        lemma_fold_out_value_le(s.drop_last());
        lemma_fold_tiles(s.drop_last());
        lemma_sum_values_nonneg(s.drop_last());
        let acc = merge_fold(s.drop_last());
        let t = s.last();
        let out1 = merge_fold(s).out;
        if acc.out.len() > 0 && acc.out.last().value == t.value && acc.out.last().merged is None {
            assert(sum_values(acc.out) == sum_values(acc.out.drop_last()) + acc.out.last().value);
            lemma_sum_values_nonneg(acc.out.drop_last());
            assert forall|i: int| 0 <= i < out1.len() implies (#[trigger] out1[i]).value as int
                <= sum_values(s) by {
                if i < out1.len() - 1 {
                    assert(out1[i] == acc.out[i]);
                }
            }
        } else {
            assert forall|i: int| 0 <= i < out1.len() implies (#[trigger] out1[i]).value as int
                <= sum_values(s) by {
                if i < out1.len() - 1 {
                    assert(out1[i] == acc.out[i]);
                }
            }
        }
    }
}

/// The cell-by-cell content of the board after the slide-and-merge phase:
/// each occupied cell holds its line's resolved tile, placed on that cell,
/// well formed, with a bounded value and an id traceable to a live tile of
/// the same line of the old board.
#[verifier::rlimit(100)]
#[verifier::spinoff_prover]
pub proof fn lemma_mb_cells(b: Seq<Option<TileView>>, d: Direction)
    requires
        b.len() == 16,
        cells_ok(b),
        values_bounded(b, 0x0100_0000),
        board_ids_distinct(b),
    ensures
        move_board(b, d).len() == 16,
        forall|i: int|
            0 <= i < 16 ==> (match #[trigger] move_board(b, d)[i] {
                Some(t) => {
                    &&& 0 <= pos_of(d, i) < line_acc(b, d, line_of(d, i)).out.len()
                    &&& t == adjust(
                        line_acc(b, d, line_of(d, i)).out[pos_of(d, i)],
                        d,
                        line_of(d, i),
                        pos_of(d, i),
                    )
                    &&& tile_ok(t, i / 4, i % 4)
                    &&& t.value <= 0x0400_0000
                    &&& line_live_id(b, d, line_of(d, i), t.id)
                },
                None => true,
            }),
{
    reveal(crate::line::line_acc);
    let mb = move_board(b, d);
    lemma_line_pack(b, d, 0);
    lemma_line_pack(b, d, 1);
    lemma_line_pack(b, d, 2);
    lemma_line_pack(b, d, 3);
    assert forall|i: int| 0 <= i < 16 implies (match #[trigger] mb[i] {
        Some(t) => {
            &&& 0 <= pos_of(d, i) < line_acc(b, d, line_of(d, i)).out.len()
            &&& t == adjust(line_acc(b, d, line_of(d, i)).out[pos_of(d, i)], d, line_of(d, i), pos_of(d, i))
            &&& tile_ok(t, i / 4, i % 4)
            &&& t.value <= 0x0400_0000
            &&& line_live_id(b, d, line_of(d, i), t.id)
        },
        None => true,
    }) by {
        lemma_cell_inverse(d, i);
        let k = line_of(d, i);
        let j = pos_of(d, i);
        if mb[i] is Some {
            let t0 = line_acc(b, d, k).out[j];
            let t = adjust(t0, d, k, j);
            if k == 0 {
                assert(good_tile(line_acc(b, d, 0).out[j]) && line_acc(b, d, 0).out[j].value
                    <= 0x0400_0000 && line_live_id(b, d, 0, line_acc(b, d, 0).out[j].id));
            } else if k == 1 {
                assert(good_tile(line_acc(b, d, 1).out[j]) && line_acc(b, d, 1).out[j].value
                    <= 0x0400_0000 && line_live_id(b, d, 1, line_acc(b, d, 1).out[j].id));
            } else if k == 2 {
                assert(good_tile(line_acc(b, d, 2).out[j]) && line_acc(b, d, 2).out[j].value
                    <= 0x0400_0000 && line_live_id(b, d, 2, line_acc(b, d, 2).out[j].id));
            } else {
                assert(good_tile(line_acc(b, d, 3).out[j]) && line_acc(b, d, 3).out[j].value
                    <= 0x0400_0000 && line_live_id(b, d, 3, line_acc(b, d, 3).out[j].id));
            }
            lemma_cell_at(d, k, j);
            assert(cell_at(d, k, j) == i);
            assert(i == 4 * cell_row(d, k, j) + cell_col(d, k, j));
            assert(i / 4 == cell_row(d, k, j) && i % 4 == cell_col(d, k, j));
            assert(good_tile(t0));
            assert(t.value == t0.value && t.background == t0.background && t.text == t0.text);
            assert(t.id == t0.id);
        }
    }
}

/// Live ids of different lines differ, and a line's live id is a live id of
/// the whole board.
proof fn lemma_line_live(b: Seq<Option<TileView>>, d: Direction)
    requires
        b.len() == 16,
        board_ids_distinct(b),
    ensures
        forall|k1: int, k2: int, x1: usize, x2: usize|
            0 <= k1 < 4 && 0 <= k2 < 4 && k1 != k2 && #[trigger] line_live_id(b, d, k1, x1)
                && #[trigger] line_live_id(b, d, k2, x2) ==> x1 != x2,
        forall|k: int, x: usize| 0 <= k < 4 && #[trigger] line_live_id(b, d, k, x) ==> live_id(b, x),
{
    assert forall|k1: int, k2: int, x1: usize, x2: usize|
        0 <= k1 < 4 && 0 <= k2 < 4 && k1 != k2 && #[trigger] line_live_id(b, d, k1, x1)
            && #[trigger] line_live_id(b, d, k2, x2) implies x1 != x2 by {
        let jj1 = choose|jj: int|
            #![trigger cell_at(d, k1, jj)]
            0 <= jj < 4 && b[cell_at(d, k1, jj)] is Some && b[cell_at(d, k1, jj)]->0.id == x1;
        let jj2 = choose|jj: int|
            #![trigger cell_at(d, k2, jj)]
            0 <= jj < 4 && b[cell_at(d, k2, jj)] is Some && b[cell_at(d, k2, jj)]->0.id == x2;
        lemma_cell_at(d, k1, jj1);
        lemma_cell_at(d, k2, jj2);
        assert(cell_at(d, k1, jj1) != cell_at(d, k2, jj2));
    }
    assert forall|k: int, x: usize| 0 <= k < 4 && #[trigger] line_live_id(b, d, k, x) implies live_id(
        b,
        x,
    ) by {
        let jj = choose|jj: int|
            #![trigger cell_at(d, k, jj)]
            0 <= jj < 4 && b[cell_at(d, k, jj)] is Some && b[cell_at(d, k, jj)]->0.id == x;
        lemma_cell_at(d, k, jj);
    }
}

/// After the slide-and-merge phase the board is still well formed: every tile
/// in place and well formed, values bounded, ids pairwise distinct, and no id
/// present that was not live before.
#[verifier::rlimit(100)]
#[verifier::spinoff_prover]
pub proof fn lemma_move_wf(b: Seq<Option<TileView>>, d: Direction)
    requires
        b.len() == 16,
        cells_ok(b),
        values_bounded(b, 0x0100_0000),
        board_ids_distinct(b),
    ensures
        move_board(b, d).len() == 16,
        cells_ok(move_board(b, d)),
        values_bounded(move_board(b, d), 0x0400_0000),
        board_ids_distinct(move_board(b, d)),
        forall|x: usize| #[trigger] live_id(move_board(b, d), x) ==> live_id(b, x),
{
    reveal(crate::line::line_acc);
    let mb = move_board(b, d);
    lemma_mb_cells(b, d);
    lemma_line_live(b, d);
    lemma_line_pack(b, d, 0);
    lemma_line_pack(b, d, 1);
    lemma_line_pack(b, d, 2);
    lemma_line_pack(b, d, 3);
    assert forall|i1: int, i2: int|
        0 <= i1 < 16 && 0 <= i2 < 16 && i1 != i2 && mb[i1] is Some && mb[i2]
            is Some implies mb[i1]->0.id != mb[i2]->0.id by {
        lemma_cell_inverse(d, i1);
        lemma_cell_inverse(d, i2);
        let k1 = line_of(d, i1);
        let j1 = pos_of(d, i1);
        let k2 = line_of(d, i2);
        let j2 = pos_of(d, i2);
        if k1 == k2 {
            assert(j1 != j2) by {
                lemma_cell_at(d, k1, j1);
                lemma_cell_at(d, k2, j2);
            }
            assert(line_acc(b, d, k1).out[j1].id != line_acc(b, d, k1).out[j2].id);
        } else {
            assert(line_live_id(b, d, k1, mb[i1]->0.id));
            assert(line_live_id(b, d, k2, mb[i2]->0.id));
        }
    }
    assert(board_ids_distinct(mb));
    assert forall|x: usize| #[trigger] live_id(mb, x) implies live_id(b, x) by {
        let i = choose|i: int| 0 <= i < mb.len() && mb[i] is Some && (#[trigger] mb[i])->0.id == x;
        lemma_cell_inverse(d, i);
        assert(line_live_id(b, d, line_of(d, i), x));
    }
}

/// After the slide-and-merge phase the occupancy drops exactly by the number
/// of merges.
#[verifier::rlimit(100)]
#[verifier::spinoff_prover]
pub proof fn lemma_move_count(b: Seq<Option<TileView>>, d: Direction)
    requires
        b.len() == 16,
        cells_ok(b),
        values_bounded(b, 0x0100_0000),
        board_ids_distinct(b),
    ensures
        count_some(move_board(b, d), 16) == count_some(b, 16) - spec_removed(b, d).len(),
        spec_removed(b, d).len() > 0 <==> (line_acc(b, d, 0).merged_any || line_acc(
            b,
            d,
            1,
        ).merged_any || line_acc(b, d, 2).merged_any || line_acc(b, d, 3).merged_any),
{
    let mb = move_board(b, d);
    lemma_line_pack(b, d, 0);
    lemma_line_pack(b, d, 1);
    lemma_line_pack(b, d, 2);
    lemma_line_pack(b, d, 3);
    lemma_count_lines(b, d);
    lemma_count_lines(mb, d);
    lemma_move_line_upto(b, d, 0, 4);
    lemma_move_line_upto(b, d, 1, 4);
    lemma_move_line_upto(b, d, 2, 4);
    lemma_move_line_upto(b, d, 3, 4);
    assert(spec_removed(b, d).len() == line_acc(b, d, 0).removed.len() + line_acc(
        b,
        d,
        1,
    ).removed.len() + line_acc(b, d, 2).removed.len() + line_acc(b, d, 3).removed.len());
}

/// The per-line sums a move needs: at most four survivors per line, value
/// conserved, and the gain bounded by twice the line's value.
proof fn lemma_line_sums(b: Seq<Option<TileView>>, d: Direction, k: int)
    requires
        b.len() == 16,
        0 <= k < 4,
        cells_ok(b),
        values_bounded(b, 0x0100_0000),
        board_ids_distinct(b),
    ensures
        line_acc(b, d, k).out.len() <= 4,
        sum_values(line_acc(b, d, k).out) == line_vsum(b, d, k, 4),
        0 <= line_acc(b, d, k).gain <= 2 * line_vsum(b, d, k, 4),
{
    reveal(crate::line::line_acc);
    let s = extract_line_spec(b, d, k);
    lemma_extract_good(b, d, k, 0x0100_0000);
    assert forall|i: int| 0 <= i < s.len() implies good_tile(#[trigger] s[i]) && s[i].value
        <= 0x0800_0000 by {}
    lemma_fold_basic(s);
    lemma_fold_tiles(s);
    lemma_extract_vsum(b, d, k, 4);
}

/// After the slide-and-merge phase the board's total value is conserved, and
/// the score gained is nonnegative and at most twice the board's total value.
#[verifier::rlimit(100)]
#[verifier::spinoff_prover]
pub proof fn lemma_move_vsum(b: Seq<Option<TileView>>, d: Direction)
    requires
        b.len() == 16,
        cells_ok(b),
        values_bounded(b, 0x0100_0000),
        board_ids_distinct(b),
    ensures
        vsum(move_board(b, d), 16) == vsum(b, 16),
        0 <= spec_gain(b, d) <= 2 * vsum(b, 16),
{
    let mb = move_board(b, d);
    lemma_line_sums(b, d, 0);
    lemma_line_sums(b, d, 1);
    lemma_line_sums(b, d, 2);
    lemma_line_sums(b, d, 3);
    lemma_move_line_upto(b, d, 0, 4);
    lemma_move_line_upto(b, d, 1, 4);
    lemma_move_line_upto(b, d, 2, 4);
    lemma_move_line_upto(b, d, 3, 4);
    lemma_vsum_lines(b, d);
    lemma_vsum_lines(mb, d);
    assert forall|k: int| 0 <= k < 4 implies line_vsum(mb, d, k, 4) == line_vsum(b, d, k, 4) by {
        let acc = line_acc(b, d, k);
        assert(acc.out.take(acc.out.len() as int) =~= acc.out);
        assert(line_vsum(mb, d, k, 4) == sum_values(acc.out));
    }
    assert(vsum(mb, 16) == vsum(b, 16));
    assert(0 <= spec_gain(b, d) <= 2 * vsum(b, 16)) by {
        lemma_line_vsum_nonneg(b, d, 0, 4);
        lemma_line_vsum_nonneg(b, d, 1, 4);
        lemma_line_vsum_nonneg(b, d, 2, 4);
        lemma_line_vsum_nonneg(b, d, 3, 4);
    }
}

/// The ids freed by a move are pairwise distinct ids of tiles that were live
/// before the move and are no longer on the board after its slide-and-merge
/// phase.
#[verifier::rlimit(100)]
#[verifier::spinoff_prover]
pub proof fn lemma_move_removed(b: Seq<Option<TileView>>, d: Direction)
    requires
        b.len() == 16,
        cells_ok(b),
        values_bounded(b, 0x0100_0000),
        board_ids_distinct(b),
    ensures
        forall|i: int, j: int|
            0 <= i < j < spec_removed(b, d).len() ==> spec_removed(b, d)[i] != spec_removed(
                b,
                d,
            )[j],
        forall|i: int|
            0 <= i < spec_removed(b, d).len() ==> live_id(b, #[trigger] spec_removed(b, d)[i]),
        forall|i: int|
            0 <= i < spec_removed(b, d).len() ==> !live_id(
                move_board(b, d),
                #[trigger] spec_removed(b, d)[i],
            ),
{
    let mb = move_board(b, d);
    let rem = spec_removed(b, d);
    lemma_mb_cells(b, d);
    lemma_line_live(b, d);
    lemma_line_pack(b, d, 0);
    lemma_line_pack(b, d, 1);
    lemma_line_pack(b, d, 2);
    lemma_line_pack(b, d, 3);
    assert forall|i: int| 0 <= i < rem.len() implies live_id(b, #[trigger] rem[i]) by {
        lemma_rem_at(b, d, i);
        assert(line_live_id(b, d, rem_line(b, d, i), rem[i]));
    }
    assert forall|i: int, j: int| 0 <= i < j < rem.len() implies rem[i] != rem[j] by {
        lemma_rem_at(b, d, i);
        lemma_rem_at(b, d, j);
        let ki = rem_line(b, d, i);
        let kj = rem_line(b, d, j);
        if ki == kj {
            assert(segment_index(b, d, i) != segment_index(b, d, j));
            assert(line_acc(b, d, ki).removed[segment_index(b, d, i)] != line_acc(
                b,
                d,
                ki,
            ).removed[segment_index(b, d, j)]);
        } else {
            assert(line_live_id(b, d, ki, rem[i]) && line_live_id(b, d, kj, rem[j]));
        }
    }
    assert forall|i: int| 0 <= i < rem.len() implies !live_id(mb, #[trigger] rem[i]) by {
        lemma_rem_at(b, d, i);
        let ki = rem_line(b, d, i);
        if live_id(mb, rem[i]) {
            let c = choose|c: int|
                0 <= c < mb.len() && mb[c] is Some && (#[trigger] mb[c])->0.id == rem[i];
            lemma_cell_inverse(d, c);
            let k2 = line_of(d, c);
            let j2 = pos_of(d, c);
            assert(mb[c]->0.id == line_acc(b, d, k2).out[j2].id);
            if k2 == ki {
                assert(line_acc(b, d, ki).out[j2].id != line_acc(b, d, ki).removed[segment_index(
                    b,
                    d,
                    i,
                )]);
                assert(false);
            } else {
                assert(line_live_id(b, d, k2, mb[c]->0.id));
                assert(line_live_id(b, d, ki, rem[i]));
                assert(false);
            }
        }
    }
}

/// Which line a concatenated freed-id index belongs to.
pub open spec fn rem_line(b: Seq<Option<TileView>>, d: Direction, i: int) -> int {
    let n0 = line_acc(b, d, 0).removed.len() as int;
    let n1 = line_acc(b, d, 1).removed.len() as int;
    let n2 = line_acc(b, d, 2).removed.len() as int;
    if i < n0 {
        0
    } else if i < n0 + n1 {
        1
    } else if i < n0 + n1 + n2 {
        2
    } else {
        3
    }
}

/// The position of a concatenated freed-id index within its line's list.
pub open spec fn segment_index(b: Seq<Option<TileView>>, d: Direction, i: int) -> int {
    let n0 = line_acc(b, d, 0).removed.len() as int;
    let n1 = line_acc(b, d, 1).removed.len() as int;
    let n2 = line_acc(b, d, 2).removed.len() as int;
    if i < n0 {
        i
    } else if i < n0 + n1 {
        i - n0
    } else if i < n0 + n1 + n2 {
        i - n0 - n1
    } else {
        i - n0 - n1 - n2
    }
}

/// A concatenated freed id is its line's freed id at its segment position,
/// and the id of a live tile of that line.
#[verifier::rlimit(100)]
#[verifier::spinoff_prover]
proof fn lemma_rem_at(b: Seq<Option<TileView>>, d: Direction, i: int)
    requires
        b.len() == 16,
        cells_ok(b),
        values_bounded(b, 0x0100_0000),
        board_ids_distinct(b),
        0 <= i < spec_removed(b, d).len(),
    ensures
        0 <= rem_line(b, d, i) < 4,
        0 <= segment_index(b, d, i) < line_acc(b, d, rem_line(b, d, i)).removed.len(),
        spec_removed(b, d)[i] == line_acc(b, d, rem_line(b, d, i)).removed[segment_index(b, d, i)],
        line_live_id(b, d, rem_line(b, d, i), spec_removed(b, d)[i]),
{
    lemma_line_pack(b, d, rem_line(b, d, i));
}

/// A move that changes a full board must merge: on a full board where no
/// line merges, no tile can move at all.
#[verifier::rlimit(100)]
#[verifier::spinoff_prover]
pub proof fn lemma_no_room(b: Seq<Option<TileView>>, d: Direction)
    requires
        b.len() == 16,
        cells_ok(b),
        values_bounded(b, 0x0100_0000),
        board_ids_distinct(b),
        spec_moved(b, d),
        spec_removed(b, d).len() == 0,
    ensures
        count_some(b, 16) < 16,
{
    lemma_count_le(b, 16);
    if count_some(b, 16) == 16 {
        lemma_count_full(b, 16);
        assert forall|k: int| 0 <= k < 4 implies !line_changed(b, d, k) by {
            assert forall|j: int| 0 <= j < 4 implies b[#[trigger] cell_at(d, k, j)] is Some
                && b[cell_at(d, k, j)]->0.row == cell_row(d, k, j) && b[cell_at(d, k, j)]->0.col
                == cell_col(d, k, j) by {
                lemma_cell_at(d, k, j);
                let i = cell_at(d, k, j);
                assert(b[i] is Some);
                assert(tile_ok(b[i]->0, i / 4, i % 4));
            }
            assert(line_acc(b, d, k).removed.len() == 0);
            assert(!line_acc(b, d, k).merged_any) by {
                reveal(crate::line::line_acc);
                lemma_fold_basic(extract_line_spec(b, d, k));
            }
            lemma_full_line_unchanged(b, d, k);
        }
        assert(!spec_moved(b, d));
        assert(false);
    }
}

/// Running totals over the first `k` lines of a move, mirroring how the move
/// is resolved line by line.
pub open spec fn gain_upto(b: Seq<Option<TileView>>, d: Direction, k: int) -> int
    decreases k,
{
    if k <= 0 {
        0
    } else {
        gain_upto(b, d, k - 1) + line_acc(b, d, k - 1).gain
    }
}

pub open spec fn removed_upto(b: Seq<Option<TileView>>, d: Direction, k: int) -> Seq<usize>
    decreases k,
{
    if k <= 0 {
        Seq::empty()
    } else {
        removed_upto(b, d, k - 1) + line_acc(b, d, k - 1).removed
    }
}

pub open spec fn won_upto(b: Seq<Option<TileView>>, d: Direction, k: int) -> bool
    decreases k,
{
    if k <= 0 {
        false
    } else {
        won_upto(b, d, k - 1) || line_acc(b, d, k - 1).won
    }
}

pub open spec fn changed_upto(b: Seq<Option<TileView>>, d: Direction, k: int) -> bool
    decreases k,
{
    if k <= 0 {
        false
    } else {
        changed_upto(b, d, k - 1) || line_changed(b, d, k - 1)
    }
}

/// The running totals at four lines are the move's totals.
#[verifier::rlimit(100)]
#[verifier::spinoff_prover]
pub proof fn lemma_upto_totals(b: Seq<Option<TileView>>, d: Direction)
    ensures
        gain_upto(b, d, 4) == spec_gain(b, d),
        removed_upto(b, d, 4) == spec_removed(b, d),
        won_upto(b, d, 4) == spec_won(b, d),
        changed_upto(b, d, 4) == spec_moved(b, d),
{
    assert(gain_upto(b, d, 0) == 0 && removed_upto(b, d, 0) =~= Seq::<usize>::empty()
        && !won_upto(b, d, 0) && !changed_upto(b, d, 0));
    assert(gain_upto(b, d, 1) == gain_upto(b, d, 0) + line_acc(b, d, 0).gain);
    assert(gain_upto(b, d, 2) == gain_upto(b, d, 1) + line_acc(b, d, 1).gain);
    assert(gain_upto(b, d, 3) == gain_upto(b, d, 2) + line_acc(b, d, 2).gain);
    assert(gain_upto(b, d, 4) == gain_upto(b, d, 3) + line_acc(b, d, 3).gain);
    assert(removed_upto(b, d, 1) == removed_upto(b, d, 0) + line_acc(b, d, 0).removed);
    assert(removed_upto(b, d, 2) == removed_upto(b, d, 1) + line_acc(b, d, 1).removed);
    assert(removed_upto(b, d, 3) == removed_upto(b, d, 2) + line_acc(b, d, 2).removed);
    assert(removed_upto(b, d, 4) == removed_upto(b, d, 3) + line_acc(b, d, 3).removed);
    assert(removed_upto(b, d, 4) =~= line_acc(b, d, 0).removed + line_acc(b, d, 1).removed
        + line_acc(b, d, 2).removed + line_acc(b, d, 3).removed);
    assert(won_upto(b, d, 1) == (won_upto(b, d, 0) || line_acc(b, d, 0).won));
    assert(won_upto(b, d, 2) == (won_upto(b, d, 1) || line_acc(b, d, 1).won));
    assert(won_upto(b, d, 3) == (won_upto(b, d, 2) || line_acc(b, d, 2).won));
    assert(won_upto(b, d, 4) == (won_upto(b, d, 3) || line_acc(b, d, 3).won));
    assert(changed_upto(b, d, 1) == (changed_upto(b, d, 0) || line_changed(b, d, 0)));
    assert(changed_upto(b, d, 2) == (changed_upto(b, d, 1) || line_changed(b, d, 1)));
    assert(changed_upto(b, d, 3) == (changed_upto(b, d, 2) || line_changed(b, d, 2)));
    assert(changed_upto(b, d, 4) == (changed_upto(b, d, 3) || line_changed(b, d, 3)));
    if changed_upto(b, d, 4) {
        assert(spec_moved(b, d)) by {
            if line_changed(b, d, 0) {
            } else if line_changed(b, d, 1) {
            } else if line_changed(b, d, 2) {
            } else {
                assert(line_changed(b, d, 3));
            }
        }
    }
    if spec_moved(b, d) {
        let k = choose|k: int| 0 <= k < 4 && line_changed(b, d, k);
        assert(changed_upto(b, d, 4)) by {
            if k == 0 {
            } else if k == 1 {
            } else if k == 2 {
            } else {
                assert(line_changed(b, d, 3));
            }
        }
    }
}

proof fn lemma_line_vsum_nonneg(b: Seq<Option<TileView>>, d: Direction, k: int, j: int)
    ensures
        line_vsum(b, d, k, j) >= 0,
    decreases j,
{
    if j > 0 {
        lemma_line_vsum_nonneg(b, d, k, j - 1);
    }
}

proof fn lemma_line_vsum_le(b: Seq<Option<TileView>>, d: Direction, k: int, j: int, cap: int)
    requires
        b.len() == 16,
        0 <= k < 4,
        0 <= j <= 4,
        values_bounded(b, cap),
        cap >= 0,
    ensures
        line_vsum(b, d, k, j) <= j * cap,
    decreases j,
{
    if j > 0 {
        lemma_line_vsum_le(b, d, k, j - 1, cap);
        lemma_cell_at(d, k, j - 1);
        assert((j - 1) * cap + cap == j * cap) by (nonlinear_arith);
    }
}

/// The loop invariant of the write-back phase: the lines before `k` already
/// hold the resolved board's cells, the lines from `k` on are still empty,
/// and no snapshot nests another.
#[verifier::opaque]
spec fn lines_written(bv: Seq<Option<TileView>>, d: Direction, k: int, nb: Seq<Option<Tile>>) -> bool {
    &&& forall|n: int| 0 <= n < 16 && line_of(d, n) < k ==> bview(nb)[n] == moved_cell(bv, d, n)
    &&& forall|n: int| 0 <= n < 16 && line_of(d, n) >= k ==> nb[n] is None
    &&& forall|n: int|
        0 <= n < 16 ==> match #[trigger] nb[n] {
            Some(t) => no_chain(&t),
            None => true,
        }
}

/// One write-back step of a move: after line `k`'s resolved tiles are
/// written, the cells of lines up to `k` match the resolved board, the
/// remaining lines are still empty, and no snapshot nests another.
proof fn lemma_write_step(
    bv: Seq<Option<TileView>>,
    d: Direction,
    k: int,
    nb_before: Seq<Option<Tile>>,
    nb_after: Seq<Option<Tile>>,
)
    requires
        bv.len() == 16,
        0 <= k < 4,
        nb_before.len() == 16,
        nb_after.len() == 16,
        forall|i: int| 0 <= i < 16 && line_of(d, i) != k ==> nb_after[i] == nb_before[i],
        forall|j: int|
            0 <= j < 4 ==> bview(nb_after)[cell_at(d, k, j)] == (if j < line_acc(
                bv,
                d,
                k,
            ).out.len() {
                Some(adjust(line_acc(bv, d, k).out[j], d, k, j))
            } else {
                None::<TileView>
            }),
        forall|j: int|
            0 <= j < 4 ==> match nb_after[#[trigger] cell_at(d, k, j)] {
                Some(t) => no_chain(&t),
                None => true,
            },
        lines_written(bv, d, k, nb_before),
    ensures
        lines_written(bv, d, k + 1, nb_after),
{
    reveal(lines_written);
    assert forall|n: int| 0 <= n < 16 && line_of(d, n) < k + 1 implies bview(nb_after)[n]
        == moved_cell(bv, d, n) by {
        lemma_cell_inverse(d, n);
        let kk = line_of(d, n);
        let j = pos_of(d, n);
        if kk == k {
            assert(cell_at(d, k, j) == n);
        } else {
            assert(nb_after[n] == nb_before[n]);
            assert(bview(nb_after)[n] == bview(nb_before)[n]);
        }
    }
    assert forall|n: int| 0 <= n < 16 && line_of(d, n) >= k + 1 implies nb_after[n] is None by {
        assert(line_of(d, n) != k);
        assert(nb_after[n] == nb_before[n]);
    }
    assert forall|n: int| 0 <= n < 16 implies match #[trigger] nb_after[n] {
        Some(t) => no_chain(&t),
        None => true,
    } by {
        lemma_cell_inverse(d, n);
        if line_of(d, n) == k {
            assert(cell_at(d, k, pos_of(d, n)) == n);
        } else {
            assert(nb_after[n] == nb_before[n]);
        }
    }
}

/// What a move computes before anything is committed: the board after the
/// slide-and-merge phase, the ids freed by merges, the score gained, whether
/// a merge reached the winning value, and whether anything moved at all.
pub(crate) struct MoveComputation {
    pub board: Vec<Option<Tile>>,
    pub removed: Vec<usize>,
    pub gain: u32,
    pub won: bool,
    pub changed: bool,
}

impl Game {
    /// Resolves a move in direction `d` without touching the game: slides and
    /// merges every line of the current board into a fresh board.
    #[verifier::rlimit(100)]
    #[verifier::spinoff_prover]
    fn compute_move(&self, d: Direction) -> (r: MoveComputation)
        requires
            self.board@.len() == 16,
            cells_ok(bview(self.board@)),
            values_bounded(bview(self.board@), 0x0100_0000),
            board_ids_distinct(bview(self.board@)),
        ensures
            r.board@.len() == 16,
            bview(r.board@) == move_board(bview(self.board@), d),
            chains_ok(r.board@),
            r.removed@ == spec_removed(bview(self.board@), d),
            r.gain == spec_gain(bview(self.board@), d),
            r.won == spec_won(bview(self.board@), d),
            r.changed == spec_moved(bview(self.board@), d),
    {
        let ghost bv = bview(self.board@);
        let mut nb: Vec<Option<Tile>> = Vec::new();
        let mut i: usize = 0;
        while i < 16
            invariant
                nb@.len() == i,
                i <= 16,
                forall|n: int| 0 <= n < i ==> nb@[n] is None,
            decreases 16 - i,
        {
            nb.push(None);
            i = i + 1;
        }
        proof {
            reveal(lines_written);
            assert(lines_written(bv, d, 0, nb@));
        }
        let mut removed: Vec<usize> = Vec::new();
        let mut gain: u32 = 0;
        let mut won = false;
        let mut changed = false;
        let mut k: usize = 0;
        while k < 4
            invariant
                self.board@.len() == 16,
                bv == bview(self.board@),
                cells_ok(bv),
                values_bounded(bv, 0x0100_0000),
                board_ids_distinct(bv),
                k <= 4,
                nb@.len() == 16,
                lines_written(bv, d, k as int, nb@),
                removed@ == removed_upto(bv, d, k as int),
                gain == gain_upto(bv, d, k as int),
                gain <= k * 0x0800_0000,
                won == won_upto(bv, d, k as int),
                changed == changed_upto(bv, d, k as int),
            decreases 4 - k,
        {
            proof {
                lemma_line_pack(bv, d, k as int);
                lemma_line_vsum_le(bv, d, k as int, 4, 0x0100_0000);
                lemma_extract_good(bv, d, k as int, 0x0100_0000);
            }
            let ex = extract_line(&self.board, d, k);
            proof {
                assert forall|i2: int| 0 <= i2 < ex@.len() implies 2 <= (
                #[trigger] ex@[i2]).value <= 0x0800_0000 by {
                    assert(tile_views(ex@)[i2] == ex@[i2]@);
                    assert(good_tile(extract_line_spec(bv, d, k as int)[i2])
                        && extract_line_spec(bv, d, k as int)[i2].value <= 0x0100_0000);
                }
            }
            let lo = merge_line(ex);
            let ghost acc = line_acc(bv, d, k as int);
            proof {
                assert(tile_views(lo.tiles@) == acc.out) by {
                    reveal(crate::line::line_acc);
                }
                assert(lo.removed@ == acc.removed && lo.gain == acc.gain && lo.won == acc.won
                    && lo.merged_any == acc.merged_any) by {
                    reveal(crate::line::line_acc);
                }
                assert(lo.tiles@.len() == acc.out.len());
            }
            let merged_any = lo.merged_any;
            let gain_k = lo.gain;
            let won_k = lo.won;
            let mut rem_k = lo.removed;
            let ghost nb_before = nb@;
            let moved_k = write_line(&mut nb, lo.tiles, d, k);
            changed = changed || merged_any || moved_k;
            proof {
                assert(gain_k <= 0x0800_0000);
            }
            gain = gain + gain_k;
            if won_k {
                won = true;
            }
            removed.append(&mut rem_k);
            proof {
                assert(removed@ == removed_upto(bv, d, k as int + 1));
                assert((merged_any || moved_k) == line_changed(bv, d, k as int));
                assert forall|j: int|
                    0 <= j < 4 implies bview(nb@)[cell_at(d, k as int, j)] == (if j < acc.out.len() {
                    Some(adjust(acc.out[j], d, k as int, j))
                } else {
                    None::<TileView>
                }) by {}
                lemma_write_step(bv, d, k as int, nb_before, nb@);
            }
            k = k + 1;
        }
        proof {
            reveal(lines_written);
            lemma_upto_totals(bv, d);
            assert forall|n: int| 0 <= n < 16 implies bview(nb@)[n] == move_board(bv, d)[n] by {
                lemma_cell_inverse(d, n);
            }
            assert(bview(nb@) =~= move_board(bv, d));
        }
        MoveComputation { board: nb, removed, gain, won, changed }
    }
}

/// The view of a freshly spawned tile of the given value and id on slot `si`.
pub open spec fn spawn_view(value: u32, id: usize, si: int) -> TileView {
    TileView {
        value,
        id,
        row: (si / 4) as usize,
        col: (si % 4) as usize,
        background: background_chars(value),
        text: text_chars(value),
        merged: None,
    }
}

/// A board with a freshly spawned tile on slot `si`.
pub open spec fn spawn_at(bv: Seq<Option<TileView>>, si: int, value: u32, id: usize) -> Seq<
    Option<TileView>,
> {
    bv.update(si, Some(spawn_view(value, id, si)))
}

/// Compares two strings character by character.
fn str_eq(a: &str, b: &str) -> (r: bool)
    ensures
        r == (a@ == b@),
{
    let la = a.unicode_len();
    let lb = b.unicode_len();
    if la != lb {
        return false;
    }
    let mut i: usize = 0;
    while i < la
        invariant
            la as int == a@.len(),
            la as int == b@.len(),
            i <= la,
            forall|n: int| 0 <= n < i ==> a@[n] == b@[n],
        decreases la - i,
    {
        let ca = a.get_char(i);
        let cb = b.get_char(i);
        if ca != cb {
            proof {
                assert(a@[i as int] != b@[i as int]);
            }
            return false;
        }
        i = i + 1;
    }
    proof {
        assert(a@ =~= b@);
    }
    true
}

/// Which direction an input token selects: the arrow keys, the vim motion
/// keys and the WASD keys each map to a direction; anything else is ignored.
pub open spec fn parse_direction(s: Seq<char>) -> Option<Direction> {
    if s == "ArrowUp"@ || s == "KeyK"@ || s == "KeyW"@ {
        Some(Direction::Up)
    } else if s == "ArrowDown"@ || s == "KeyJ"@ || s == "KeyS"@ {
        Some(Direction::Down)
    } else if s == "ArrowLeft"@ || s == "KeyH"@ || s == "KeyA"@ {
        Some(Direction::Left)
    } else if s == "ArrowRight"@ || s == "KeyL"@ || s == "KeyD"@ {
        Some(Direction::Right)
    } else {
        None
    }
}

fn parse_input(input: &str) -> (r: Option<Direction>)
    ensures
        r == parse_direction(input@),
{
    if str_eq(input, "ArrowUp") || str_eq(input, "KeyK") || str_eq(input, "KeyW") {
        Some(Direction::Up)
    } else if str_eq(input, "ArrowDown") || str_eq(input, "KeyJ") || str_eq(input, "KeyS") {
        Some(Direction::Down)
    } else if str_eq(input, "ArrowLeft") || str_eq(input, "KeyH") || str_eq(input, "KeyA") {
        Some(Direction::Left)
    } else if str_eq(input, "ArrowRight") || str_eq(input, "KeyL") || str_eq(input, "KeyD") {
        Some(Direction::Right)
    } else {
        None
    }
}

pub proof fn lemma_count_of_nones(b: Seq<Option<TileView>>, n: int)
    requires
        forall|i: int| 0 <= i < n ==> b[i] is None,
    ensures
        count_some(b, n) == 0,
    decreases n,
{
    if n > 0 {
        lemma_count_of_nones(b, n - 1);
    }
}

impl Game {
    /// Places a freshly drawn tile of the given value, carrying the given id,
    /// on a uniformly random free slot.
    fn spawn_random(&mut self, id: usize, value: u32)
        requires
            old(self).board@.len() == 16,
            chains_ok(old(self).board@),
            count_some(bview(old(self).board@), 16) < 16,
            value == 2 || value == 4,
        ensures
            final(self).board@.len() == 16,
            final(self).new_tile_params == old(self).new_tile_params,
            final(self).score == old(self).score,
            final(self).id_list == old(self).id_list,
            final(self).game_won == old(self).game_won,
            chains_ok(final(self).board@),
            exists|si: int|
                #![trigger spawn_at(bview(old(self).board@), si, value, id)]
                0 <= si < 16 && bview(old(self).board@)[si] is None && bview(final(self).board@)
                    == spawn_at(bview(old(self).board@), si, value, id),
    {
        let slot = match self.get_random_free_slot() {
            Some(rc) => rc,
            None => {
                proof {
                    assert(false);
                }
                vstd::pervasive::unreached()
            },
        };
        let (background_color, text_color) = crate::colors::tile_colors(value);
        let t = Tile::new(value, id, background_color, text_color, slot.0, slot.1);
        let idx = slot.0 * 4 + slot.1;
        let ghost bv_before = bview(self.board@);
        proof {
            crate::line::lemma_bview_update(self.board@, idx as int, Some(t));
        }
        self.board.set(idx, Some(t));
        proof {
            assert(t@ == spawn_view(value, id, idx as int));
            assert(bview(self.board@) =~= spawn_at(bv_before, idx as int, value, id));
            assert forall|i: int| 0 <= i < self.board@.len() implies match #[trigger] self.board@[i] {
                Some(t2) => no_chain(&t2),
                None => true,
            } by {
                if i != idx {
                    assert(self.board@[i] == old(self).board@[i]);
                }
            }
        }
    }

    /// Starts a fresh game: an empty board, a full id pool, score 0, and two
    /// seeded tiles. If the first drawn value is a 4, the second is forced to
    /// be a 2, so a new game never starts with two 4s; both positions are
    /// uniformly random free slots.
    #[verifier::rlimit(100)]
    #[verifier::spinoff_prover]
    pub fn new() -> (r: Game)
        ensures
            r.wf(),
            r.score == 0,
            r.game_won == false,
            count_some(bview(r.board@), 16) == 2,
            values_bounded(bview(r.board@), 4),
            forall|i: int|
                0 <= i < 16 ==> match #[trigger] bview(r.board@)[i] {
                    Some(t) => t.value == 2 || t.value == 4,
                    None => true,
                },
            forall|i1: int, i2: int|
                0 <= i1 < 16 && 0 <= i2 < 16 && i1 != i2 && bview(r.board@)[i1] is Some && bview(
                    r.board@,
                )[i2] is Some ==> !(bview(r.board@)[i1]->0.value == 4 && bview(r.board@)[i2]->0.value
                    == 4),
            r.id_list@.len() == 15,
    {
        let mut board: Vec<Option<Tile>> = Vec::new();
        let mut i: usize = 0;
        while i < 16
            invariant
                board@.len() == i,
                i <= 16,
                forall|n: int| 0 <= n < i ==> board@[n] is None,
            decreases 16 - i,
        {
            board.push(None);
            i = i + 1;
        }
        let mut id_list: Vec<usize> = Vec::new();
        let mut n: usize = 0;
        while n < 17
            invariant
                id_list@.len() == n,
                n <= 17,
                forall|m: int| 0 <= m < n ==> id_list@[m] == m,
            decreases 17 - n,
        {
            id_list.push(n);
            n = n + 1;
        }
        let mut game = Game {
            board,
            new_tile_params: NewTileParams::new(),
            free_slots: Vec::new(),
            score: 0,
            id_list,
            game_won: false,
        };
        proof {
            assert(forall|i: int| 0 <= i < 16 ==> bview(game.board@)[i] is None);
            lemma_count_of_nones(bview(game.board@), 16);
        }
        // If the first tile is a 4, the second must be a 2; otherwise the
        // second is drawn independently.
        let first_tile_value = game.generate_tile_value();
        let second_tile_value = if first_tile_value == game.new_tile_params.tile_choices[1] {
            game.new_tile_params.tile_choices[0]
        } else {
            game.generate_tile_value()
        };
        proof {
            assert(!(first_tile_value == 4 && second_tile_value == 4));
        }
        let first_id = match game.get_id() {
            Some(x) => x,
            None => vstd::pervasive::unreached(),
        };
        let ghost bv0 = bview(game.board@);
        game.spawn_random(first_id, first_tile_value);
        let ghost bv1 = bview(game.board@);
        let ghost si1 = choose|si: int|
            #![trigger spawn_at(bv0, si, first_tile_value, first_id)]
            0 <= si < 16 && bv0[si] is None && bv1 == spawn_at(bv0, si, first_tile_value, first_id);
        proof {
            lemma_count_update(bv0, 16, si1, Some(spawn_view(first_tile_value, first_id, si1)));
            assert(count_some(bv1, 16) == 1);
        }
        let second_id = match game.get_id() {
            Some(x) => x,
            None => vstd::pervasive::unreached(),
        };
        game.spawn_random(second_id, second_tile_value);
        let ghost bv2 = bview(game.board@);
        let ghost si2 = choose|si: int|
            #![trigger spawn_at(bv1, si, second_tile_value, second_id)]
            0 <= si < 16 && bv1[si] is None && bv2 == spawn_at(
                bv1,
                si,
                second_tile_value,
                second_id,
            );
        proof {
            lemma_count_update(bv1, 16, si2, Some(spawn_view(second_tile_value, second_id, si2)));
            assert(count_some(bv2, 16) == 2);
            assert(si1 != si2);
            assert(first_id == 0 && second_id == 1);
            // The only live tiles are the two spawned ones.
            assert forall|i: int| 0 <= i < 16 implies match #[trigger] bv2[i] {
                Some(t) => (i == si1 && t == spawn_view(first_tile_value, first_id, si1)) || (i
                    == si2 && t == spawn_view(second_tile_value, second_id, si2)),
                None => true,
            } by {
                if i != si1 && i != si2 {
                    assert(bv2[i] == bv1[i] && bv1[i] == bv0[i]);
                }
            }
            assert(is_pow2(2) && is_pow2(4)) by {
                assert(is_pow2(2int) == (2int % 2 == 0 && is_pow2(1int)));
                assert(is_pow2(4int) == (4int % 2 == 0 && is_pow2(2int)));
            }
            assert(cells_ok(bv2));
            assert(board_ids_distinct(bv2));
            // Pool: ids 2..16 remain, each unused by the two live tiles.
            assert(game.id_list@.len() == 15);
            assert forall|i: int| 0 <= i < game.id_list@.len() implies (
            #[trigger] game.id_list@[i]) < 17 && !live_id(bview(game.board@), game.id_list@[i]) by {
                assert(game.id_list@[i] == i + 2);
            }
            assert(game.pool_ok()) by {
                reveal(Game::pool_ok);
            }
            assert(game.wf());
        }
        game
    }
}

/// After a successful move commits the resolved board, recycles the freed
/// ids and spawns the new tile, the whole invariant holds again.
#[verifier::rlimit(100)]
#[verifier::spinoff_prover]
proof fn lemma_after_spawn_wf(
    bv: Seq<Option<TileView>>,
    d: Direction,
    old_pool: Seq<usize>,
    new_id: usize,
    value: u32,
    si: int,
    g: Game,
)
    requires
        bv.len() == 16,
        cells_ok(bv),
        values_bounded(bv, 0x0100_0000),
        board_ids_distinct(bv),
        forall|i: int, j: int| 0 <= i < j < old_pool.len() ==> old_pool[i] != old_pool[j],
        forall|i: int|
            0 <= i < old_pool.len() ==> (#[trigger] old_pool[i]) < 17 && !live_id(bv, old_pool[i]),
        forall|i: int|
            0 <= i < 16 ==> match #[trigger] bv[i] {
                Some(t) => t.id < 17,
                None => true,
            },
        old_pool.len() + count_some(bv, 16) == 17,
        old_pool.len() > 0,
        new_id == old_pool[0],
        g.board@.len() == 16,
        bview(g.board@) == spawn_at(move_board(bv, d), si, value, new_id),
        0 <= si < 16,
        move_board(bv, d)[si] is None,
        value == 2 || value == 4,
        chains_ok(g.board@),
        g.id_list@ == old_pool.subrange(1, old_pool.len() as int) + spec_removed(bv, d),
        params_standard(g.new_tile_params),
    ensures
        g.wf(),
        count_some(bview(g.board@), 16) == count_some(bv, 16) - spec_removed(bv, d).len() + 1,
        vsum(bview(g.board@), 16) == vsum(bv, 16) + value,
{
    let mb = move_board(bv, d);
    let bv2 = bview(g.board@);
    let rem = spec_removed(bv, d);
    let tail = old_pool.subrange(1, old_pool.len() as int);
    lemma_move_wf(bv, d);
    lemma_move_count(bv, d);
    lemma_move_vsum(bv, d);
    lemma_move_removed(bv, d);
    lemma_count_update(mb, 16, si, Some(spawn_view(value, new_id, si)));
    lemma_vsum_update(mb, 16, si, Some(spawn_view(value, new_id, si)));
    assert(is_pow2(2) && is_pow2(4)) by {
        assert(is_pow2(2int) == (2int % 2 == 0 && is_pow2(1int)));
        assert(is_pow2(4int) == (4int % 2 == 0 && is_pow2(2int)));
    }
    // The spawned tile is well formed on its slot; the rest is the resolved board.
    assert forall|i: int| 0 <= i < 16 implies (match #[trigger] bv2[i] {
        Some(t) => tile_ok(t, i / 4, i % 4) && t.id < 17 && (t.id == new_id ==> i == si),
        None => true,
    }) by {
        if i != si {
            assert(bv2[i] == mb[i]);
            if mb[i] is Some {
                assert(tile_ok(mb[i]->0, i / 4, i % 4));
                assert(live_id(mb, mb[i]->0.id));
                assert(live_id(bv, mb[i]->0.id));
                let w = choose|w: int|
                    0 <= w < bv.len() && bv[w] is Some && (#[trigger] bv[w])->0.id == mb[i]->0.id;
                assert(bv[w]->0.id < 17);
                assert(mb[i]->0.id != new_id) by {
                    assert(!live_id(bv, new_id));
                }
            }
        }
    }
    assert(cells_ok(bv2));
    assert(board_ids_distinct(bv2)) by {
        assert forall|i1: int, i2: int|
            0 <= i1 < 16 && 0 <= i2 < 16 && i1 != i2 && bv2[i1] is Some && bv2[i2]
                is Some implies bv2[i1]->0.id != bv2[i2]->0.id by {
            if i1 != si && i2 != si {
                assert(bv2[i1] == mb[i1] && bv2[i2] == mb[i2]);
            } else if i1 == si {
                assert(bv2[i2] == mb[i2]);
                assert(bv2[i2]->0.id != new_id);
            } else {
                assert(bv2[i1] == mb[i1]);
                assert(bv2[i1]->0.id != new_id);
            }
        }
    }
    // Every live id of the new board is either the spawned id or was live before.
    assert forall|x: usize| #[trigger] live_id(bv2, x) implies x == new_id || (live_id(mb, x)
        && live_id(bv, x)) by {
        let i = choose|i: int| 0 <= i < bv2.len() && bv2[i] is Some && (#[trigger] bv2[i])->0.id == x;
        if i != si {
            assert(bv2[i] == mb[i]);
            assert(live_id(mb, x));
        }
    }
    // The new pool: the old pool's tail plus this move's freed ids.
    assert forall|i: int| 0 <= i < g.id_list@.len() implies (#[trigger] g.id_list@[i]) < 17
        && !live_id(bv2, g.id_list@[i]) by {
        if i < tail.len() {
            assert(g.id_list@[i] == old_pool[i + 1]);
            assert(!live_id(bv, old_pool[i + 1]));
            assert(old_pool[i + 1] != new_id);
            if live_id(bv2, old_pool[i + 1]) {
                assert(live_id(bv, old_pool[i + 1]));
            }
        } else {
            let x = rem[i - tail.len()];
            assert(g.id_list@[i] == x);
            assert(live_id(bv, x));
            let w = choose|w: int|
                0 <= w < bv.len() && bv[w] is Some && (#[trigger] bv[w])->0.id == x;
            assert(bv[w]->0.id < 17);
            assert(!live_id(mb, x));
            assert(x != new_id) by {
                assert(!live_id(bv, new_id));
            }
            if live_id(bv2, x) {
                assert(false);
            }
        }
    }
    assert forall|i: int, j: int| 0 <= i < j < g.id_list@.len() implies g.id_list@[i]
        != g.id_list@[j] by {
        if i < tail.len() && j < tail.len() {
            assert(g.id_list@[i] == old_pool[i + 1] && g.id_list@[j] == old_pool[j + 1]);
        } else if i < tail.len() {
            assert(g.id_list@[i] == old_pool[i + 1]);
            assert(g.id_list@[j] == rem[j - tail.len()]);
            assert(live_id(bv, rem[j - tail.len()]));
            assert(!live_id(bv, old_pool[i + 1]));
        } else {
            assert(g.id_list@[i] == rem[i - tail.len()] && g.id_list@[j] == rem[j - tail.len()]);
        }
    }
    assert(g.id_list@.len() + count_some(bv2, 16) == 17);
    assert(g.pool_ok()) by {
        reveal(Game::pool_ok);
    }
    assert(g.wf());
}

impl Game {
    /// One new tile of value 2 or 4, carrying `new_id`, stands on a slot that
    /// the resolved board left free; everything else is the resolved board.
    pub open spec fn spawned_ok(
        bv: Seq<Option<TileView>>,
        d: Direction,
        post_board: Seq<Option<TileView>>,
        new_id: usize,
    ) -> bool {
        exists|si: int, sv: u32|
            #![trigger spawn_at(move_board(bv, d), si, sv, new_id)]
            0 <= si < 16 && move_board(bv, d)[si] is None && (sv == 2 || sv == 4) && post_board
                == spawn_at(move_board(bv, d), si, sv, new_id)
    }

    /// What resolving one move in direction `d` promises, relating the game
    /// before the call (`pre`) to the game after it (`post`). A move that
    /// would change nothing is rejected and leaves the game untouched. A move
    /// that changes the board commits the resolved board, grows the score by
    /// the sum of the doubled merge values, hands out the pool's front id to
    /// one new tile of value 2 or 4 spawned on a free slot, appends the
    /// merged tiles' ids to the pool behind it, reports a win exactly when a
    /// merge first reaches the winning value, conserves the board's total
    /// value up to the spawned tile, and keeps the invariant.
    #[verifier::opaque]
    pub open spec fn move_outcome_ok(pre: Game, post: Game, d: Direction, r: InputResult) -> bool {
        let bv = bview(pre.board@);
        &&& (r is Rejected <==> !spec_moved(bv, d))
        &&& (r is Rejected ==> post == pre)
        &&& (r matches InputResult::Moved(new_id, tiles, won_now) ==> {
            &&& pre.id_list@.len() > 0
            &&& new_id == pre.id_list@[0]
            &&& post.id_list@ == pre.id_list@.subrange(1, pre.id_list@.len() as int)
                + spec_removed(bv, d)
            &&& post.score == pre.score + spec_gain(bv, d)
            &&& won_now == (!pre.game_won && spec_won(bv, d))
            &&& post.game_won == (pre.game_won || spec_won(bv, d))
            &&& Game::spawned_ok(bv, d, bview(post.board@), new_id)
            &&& tiles@ == live_tiles(post.board@, 16)
            &&& post.wf()
            &&& post.new_tile_params == pre.new_tile_params
            &&& (vsum(bview(post.board@), 16) == vsum(bv, 16) + 2 || vsum(bview(post.board@), 16)
                == vsum(bv, 16) + 4)
        })
    }

    /// Commits an already resolved, changed move: the resolved board and the
    /// gained score are installed, the pool's front id goes to one new tile
    /// of value 2 or 4 spawned on a random free slot, the freed ids return to
    /// the pool behind it, and the win flag fires if this move first reached
    /// the winning value. Returns the new tile's id, a snapshot of all live
    /// tiles, and whether this move won.
    #[verifier::rlimit(100)]
    #[verifier::spinoff_prover]
    fn commit_and_spawn(
        &mut self,
        Ghost(d): Ghost<Direction>,
        nboard: Vec<Option<Tile>>,
        freed: Vec<usize>,
        gain: u32,
        won: bool,
    ) -> (r: (usize, bool, Ghost<(int, u32)>))
        requires
            old(self).wf(),
            values_bounded(bview(old(self).board@), 0x0100_0000),
            old(self).score <= 0x4000_0000,
            nboard@.len() == 16,
            bview(nboard@) == move_board(bview(old(self).board@), d),
            chains_ok(nboard@),
            freed@ == spec_removed(bview(old(self).board@), d),
            gain == spec_gain(bview(old(self).board@), d),
            won == spec_won(bview(old(self).board@), d),
            spec_moved(bview(old(self).board@), d),
        ensures
            old(self).id_list@.len() > 0,
            r.0 == old(self).id_list@[0],
            final(self).id_list@ == old(self).id_list@.subrange(
                1,
                old(self).id_list@.len() as int,
            ) + spec_removed(bview(old(self).board@), d),
            final(self).score == old(self).score + spec_gain(bview(old(self).board@), d),
            r.1 == (!old(self).game_won && spec_won(bview(old(self).board@), d)),
            final(self).game_won == (old(self).game_won || spec_won(bview(old(self).board@), d)),
            0 <= r.2@.0 < 16,
            move_board(bview(old(self).board@), d)[r.2@.0] is None,
            r.2@.1 == 2 || r.2@.1 == 4,
            bview(final(self).board@) == spawn_at(
                move_board(bview(old(self).board@), d),
                r.2@.0,
                r.2@.1,
                r.0,
            ),
            final(self).wf(),
            final(self).new_tile_params == old(self).new_tile_params,
            vsum(bview(final(self).board@), 16) == vsum(bview(old(self).board@), 16) + 2 || vsum(
                bview(final(self).board@),
                16,
            ) == vsum(bview(old(self).board@), 16) + 4,
    {
        let ghost bv = bview(old(self).board@);
        let ghost mb = move_board(bv, d);
        proof {
            reveal(Game::pool_ok);
            lemma_move_count(bv, d);
            lemma_move_vsum(bv, d);
            lemma_count_le(bv, 16);
            lemma_vsum_le(bv, 16, 0x0100_0000);
            if spec_removed(bv, d).len() == 0 {
                lemma_no_room(bv, d);
            }
        }
        let ghost old_pool = self.id_list@;
        self.board = nboard;
        self.score = self.score + gain;
        // The new tile's id is taken before the freed ids return to the
        // pool, so a merged tile's id is never reissued this same turn.
        let new_id = match self.get_id() {
            Some(x) => x,
            None => {
                proof {
                    assert(false);
                }
                vstd::pervasive::unreached()
            },
        };
        self.recycle_ids(freed);
        let value = self.generate_tile_value();
        proof {
            assert(count_some(bview(self.board@), 16) < 16);
        }
        self.spawn_random(new_id, value);
        let ghost si = choose|si: int|
            #![trigger spawn_at(mb, si, value, new_id)]
            0 <= si < 16 && mb[si] is None && bview(self.board@) == spawn_at(
                mb,
                si,
                value,
                new_id,
            );
        let mut won_now = false;
        if !self.game_won && won {
            won_now = true;
            self.game_won = true;
        }
        proof {
            lemma_after_spawn_wf(bv, d, old_pool, new_id, value, si, *self);
        }
        (new_id, won_now, Ghost((si, value)))
    }

    /// Resolves one move in direction `d`; see `move_outcome_ok`.
    #[verifier::rlimit(100)]
    #[verifier::spinoff_prover]
    fn apply_move(&mut self, d: Direction) -> (r: InputResult)
        requires
            old(self).wf(),
            values_bounded(bview(old(self).board@), 0x0100_0000),
            old(self).score <= 0x4000_0000,
        ensures
            Game::move_outcome_ok(*old(self), *final(self), d, r),
    {
        let comp = self.compute_move(d);
        let MoveComputation { board: nboard, removed: freed, gain, won, changed } = comp;
        if !changed {
            proof {
                assert(Game::move_outcome_ok(
                    *old(self),
                    *self,
                    d,
                    InputResult::Rejected(InvalidMove),
                )) by {
                    reveal(Game::move_outcome_ok);
                }
            }
            return InputResult::Rejected(InvalidMove);
        }
        let (new_id, won_now, w) = self.commit_and_spawn(Ghost(d), nboard, freed, gain, won);
        let tiles = self.get_tiles();
        let r = InputResult::Moved(new_id, tiles, won_now);
        proof {
            let bv = bview(old(self).board@);
            let pre = *old(self);
            let post = *self;
            let si = w@.0;
            let sv = w@.1;
            assert(0 <= si < 16 && move_board(bv, d)[si] is None && (sv == 2 || sv == 4) && bview(
                self.board@,
            ) == spawn_at(move_board(bv, d), si, sv, new_id));
            assert(r is Rejected == !spec_moved(bv, d));
            assert(pre.id_list@.len() > 0 && new_id == pre.id_list@[0]);
            assert(post.id_list@ == pre.id_list@.subrange(1, pre.id_list@.len() as int)
                + spec_removed(bv, d));
            assert(post.score == pre.score + spec_gain(bv, d));
            assert(won_now == (!pre.game_won && spec_won(bv, d)));
            assert(post.game_won == (pre.game_won || spec_won(bv, d)));
            assert(Game::spawned_ok(bv, d, bview(post.board@), new_id));
            assert(tiles@ == live_tiles(post.board@, 16));
            assert(post.wf());
            assert(post.new_tile_params == pre.new_tile_params);
            assert(vsum(bview(post.board@), 16) == vsum(bv, 16) + 2 || vsum(bview(post.board@), 16)
                == vsum(bv, 16) + 4);
            assert(Game::move_outcome_ok(pre, post, d, r)) by {
                reveal(Game::move_outcome_ok);
            }
        }
        r
    }

    /// Receives one input token and slides the tiles in the direction it
    /// selects. If at least one tile moves or merges, the move is committed:
    /// the score grows by the sum of the doubled merge values, a new id is
    /// taken from the pool before the merged tiles' ids return to it, one new
    /// tile of value 2 or 4 spawns on a uniformly random free slot, and the
    /// result carries the new tile's id, a snapshot of all live tiles, and
    /// whether this move was the first ever to reach the winning value.
    /// Otherwise — also for an unrecognized token — the game is left exactly
    /// as it was and the move is rejected.
    pub fn receive_input(&mut self, input: &str) -> (r: InputResult)
        requires
            old(self).wf(),
            values_bounded(bview(old(self).board@), 0x0100_0000),
            old(self).score <= 0x4000_0000,
        ensures
            match parse_direction(input@) {
                None => r is Rejected && *final(self) == *old(self),
                Some(d) => Game::move_outcome_ok(*old(self), *final(self), d, r),
            },
    {
        match parse_input(input) {
            Some(d) => self.apply_move(d),
            None => InputResult::Rejected(InvalidMove),
        }
    }

    /// Whether the game is over: true exactly when none of the four
    /// directions would move any tile.
    pub fn game_over(&self) -> (r: bool)
        requires
            self.wf(),
            values_bounded(bview(self.board@), 0x0100_0000),
        ensures
            r == (!spec_moved(bview(self.board@), Direction::Up) && !spec_moved(
                bview(self.board@),
                Direction::Down,
            ) && !spec_moved(bview(self.board@), Direction::Left) && !spec_moved(
                bview(self.board@),
                Direction::Right,
            )),
    {
        let up = self.compute_move(Direction::Up).changed;
        let down = self.compute_move(Direction::Down).changed;
        let left = self.compute_move(Direction::Left).changed;
        let right = self.compute_move(Direction::Right).changed;
        !(up || down || left || right)
    }
}

/// Uniqueness: in every well-formed game — and the constructor and every
/// move keep the game well formed — no two live tiles share an id.
pub proof fn lemma_live_ids_unique(g: Game)
    requires
        g.wf(),
    ensures
        forall|i1: int, i2: int|
            0 <= i1 < 16 && 0 <= i2 < 16 && i1 != i2 && bview(g.board@)[i1] is Some && bview(
                g.board@,
            )[i2] is Some ==> bview(g.board@)[i1]->0.id != bview(g.board@)[i2]->0.id,
{
}

/// Win-once: once the winning value has been reached, no later move reports
/// a win again, and the flag never resets.
pub proof fn lemma_win_once(pre: Game, post: Game, d: Direction, r: InputResult)
    requires
        Game::move_outcome_ok(pre, post, d, r),
        pre.game_won,
    ensures
        r matches InputResult::Moved(new_id, tiles, won_now) ==> !won_now,
        r is Moved ==> post.game_won,
{
    reveal(Game::move_outcome_ok);
}

/// Game-over correctness: a direction in which no tile can move is exactly a
/// direction whose move is rejected and leaves the game untouched; `game_over`
/// returns true exactly when this holds of all four directions.
pub proof fn lemma_game_over_rejects(pre: Game, post: Game, d: Direction, r: InputResult)
    requires
        Game::move_outcome_ok(pre, post, d, r),
        !spec_moved(bview(pre.board@), d),
    ensures
        r is Rejected,
        post == pre,
{
    reveal(Game::move_outcome_ok);
}

/// No double merge: a line of four equal tiles resolves to exactly two tiles
/// of doubled value — the first merge is never merged into again — and
/// exactly two ids are freed.
pub proof fn lemma_no_double_merge(s: Seq<TileView>)
    requires
        s.len() == 4,
        forall|i: int| 0 <= i < 4 ==> (#[trigger] s[i]).value == s[0].value,
        forall|i: int| 0 <= i < 4 ==> (#[trigger] s[i]).merged is None,
        s[0].value <= 0x0800_0000,
    ensures
        merge_fold(s).out.len() == 2,
        merge_fold(s).out[0].value == 2 * s[0].value,
        merge_fold(s).out[1].value == 2 * s[0].value,
        merge_fold(s).removed.len() == 2,
{
    let s1 = s.take(1);
    let s2 = s.take(2);
    let s3 = s.take(3);
    assert(s.take(4) =~= s);
    assert(s1.drop_last() =~= s.take(0));
    assert(s2.drop_last() =~= s1);
    assert(s3.drop_last() =~= s2);
    assert(s.drop_last() =~= s3);
    assert(s.take(0) =~= Seq::<TileView>::empty());
    assert(merge_fold(s1) == merge_step(merge_fold(s.take(0)), s[0]));
    assert(merge_fold(s1).out =~= seq![s[0]]);
    assert(merge_fold(s2) == merge_step(merge_fold(s1), s[1]));
    assert(merge_fold(s3) == merge_step(merge_fold(s2), s[2]));
    assert(merge_fold(s) == merge_step(merge_fold(s3), s[3]));
    assert(merge_fold(s2).out.len() == 1 && merge_fold(s2).out[0].value == 2 * s[0].value
        && merge_fold(s2).out[0].merged is Some);
    assert(merge_fold(s3).out.len() == 2 && merge_fold(s3).out[1] == s[2]);
    assert(merge_fold(s).out.len() == 2);
}

} // verus!
